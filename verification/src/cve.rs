use vstd::prelude::*;
pub use crate::codec::{parse_configurations, parse_cpe_fs, serialize_configurations};
use crate::text::{lemma_str_lt_total, push_char, str_eq, str_le, str_less, str_less_eq, str_lt};

verus! {

/// Severity rating of a CVE, ordered from least to most severe.
#[derive(Debug, Clone, Copy, PartialEq, Eq, Structural, PartialOrd, Ord)]
pub enum Severity {
    Zero,
    Unknown,
    Low,
    Medium,
    High,
    Critical,
}

/// The integer code under which a severity is stored.
pub open spec fn severity_code(s: Severity) -> i64 {
    match s {
        Severity::Zero => 0,
        Severity::Unknown => 1,
        Severity::Low => 2,
        Severity::Medium => 3,
        Severity::High => 4,
        Severity::Critical => 5,
    }
}

/// The severity that a stored integer code stands for; unknown codes read as `Unknown`.
pub open spec fn severity_of_code(n: i64) -> Severity {
    if n == 0 {
        Severity::Zero
    } else if n == 2 {
        Severity::Low
    } else if n == 3 {
        Severity::Medium
    } else if n == 4 {
        Severity::High
    } else if n == 5 {
        Severity::Critical
    } else {
        Severity::Unknown
    }
}

impl Severity {
    pub fn from_int(n: i64) -> (s: Self)
        ensures
            s == severity_of_code(n),
    {
        match n {
            0 => Severity::Zero,
            1 => Severity::Unknown,
            2 => Severity::Low,
            3 => Severity::Medium,
            4 => Severity::High,
            5 => Severity::Critical,
            _ => Severity::Unknown,
        }
    }

    /// The integer code under which this severity is stored.
    pub fn to_int(self) -> (n: i64)
        ensures
            n == severity_code(self),
    {
        match self {
            Severity::Zero => 0,
            Severity::Unknown => 1,
            Severity::Low => 2,
            Severity::Medium => 3,
            Severity::High => 4,
            Severity::Critical => 5,
        }
    }
}

/// Reading back the stored code of a severity gives the same severity.
pub proof fn law_severity_code_roundtrip(s: Severity)
    ensures
        severity_of_code(severity_code(s)) == s,
{
}


/// A reference attached to a CVE.
#[derive(Debug, Clone)]
pub struct Reference {
    pub url: Option<String>,
    pub name: Option<String>,
}

/// A description of a CVE in one language.
#[derive(Debug, Clone)]
pub struct Description {
    pub lang: String,
    pub value: String,
}

/// The logical values of a CPE attribute.
#[derive(Debug, Clone, PartialEq, Eq, Structural)]
pub enum Logical {
    Any,
    NA,
}

impl Logical {
    /// The symbol of the value in a CPE formatted string.
    pub fn to_string(&self) -> (s: String)
        ensures
            s@ == (match self {
                Logical::Any => seq!['*'],
                Logical::NA => seq!['-'],
            }),
    {
        proof {
            reveal_strlit("*");
            reveal_strlit("-");
        }
        match self {
            Logical::Any => "*".to_owned(),
            Logical::NA => "-".to_owned(),
        }
    }
}

/// The part attribute of a CPE.
#[derive(Debug, Clone, PartialEq, Eq, Structural)]
pub enum Part {
    App,
    OS,
    Hardware,
}

impl Part {
    /// The letter of the part in a CPE formatted string.
    pub fn to_string(&self) -> (s: String)
        ensures
            s@ == (match self {
                Part::App => seq!['a'],
                Part::OS => seq!['o'],
                Part::Hardware => seq!['h'],
            }),
    {
        proof {
            reveal_strlit("a");
            reveal_strlit("o");
            reveal_strlit("h");
        }
        match self {
            Part::App => "a".to_owned(),
            Part::OS => "o".to_owned(),
            Part::Hardware => "h".to_owned(),
        }
    }
}

/// A CPE 2.3 name; an absent attribute is a wildcard.
#[derive(Debug, Clone)]
pub struct CPE {
    pub part: Option<String>,
    pub vendor: Option<String>,
    pub product: Option<String>,
    pub version: Option<String>,
    pub update: Option<String>,
    pub edition: Option<String>,
    pub lang: Option<String>,
    pub sw_edition: Option<String>,
    pub target_sw: Option<String>,
    pub target_hw: Option<String>,
    pub other: Option<String>,
}

/// The characters of an optional string.
pub open spec fn opt_view(o: Option<String>) -> Option<Seq<char>> {
    match o {
        Some(s) => Some(s@),
        None => None,
    }
}

/// The attributes of a CPE name, as characters.
pub struct CpeView {
    pub part: Option<Seq<char>>,
    pub vendor: Option<Seq<char>>,
    pub product: Option<Seq<char>>,
    pub version: Option<Seq<char>>,
    pub update: Option<Seq<char>>,
    pub edition: Option<Seq<char>>,
    pub lang: Option<Seq<char>>,
    pub sw_edition: Option<Seq<char>>,
    pub target_sw: Option<Seq<char>>,
    pub target_hw: Option<Seq<char>>,
    pub other: Option<Seq<char>>,
}

impl View for CPE {
    type V = CpeView;

    open spec fn view(&self) -> CpeView {
        CpeView {
            part: opt_view(self.part),
            vendor: opt_view(self.vendor),
            product: opt_view(self.product),
            version: opt_view(self.version),
            update: opt_view(self.update),
            edition: opt_view(self.edition),
            lang: opt_view(self.lang),
            sw_edition: opt_view(self.sw_edition),
            target_sw: opt_view(self.target_sw),
            target_hw: opt_view(self.target_hw),
            other: opt_view(self.other),
        }
    }
}

/// The attributes of a CPE name in the order of the formatted string.
pub open spec fn cpe_fields(c: CpeView) -> Seq<Option<Seq<char>>> {
    seq![
        c.part,
        c.vendor,
        c.product,
        c.version,
        c.update,
        c.edition,
        c.lang,
        c.sw_edition,
        c.target_sw,
        c.target_hw,
        c.other,
    ]
}

/// Whether one attribute of two CPE names agrees: an absent attribute or `*` matches
/// anything, `-` matches nothing else, other values must be equal.
pub open spec fn field_matches(a: Option<Seq<char>>, b: Option<Seq<char>>) -> bool {
    match (a, b) {
        (None, _) => true,
        (_, None) => true,
        (Some(x), Some(y)) => if x == seq!['*'] || y == seq!['*'] {
            true
        } else if x == seq!['-'] || y == seq!['-'] {
            false
        } else {
            x == y
        },
    }
}

/// Whether two CPE names match, attribute by attribute.
pub open spec fn cpe_matches(a: CpeView, b: CpeView) -> bool {
    forall|i: int| 0 <= i < 11 ==> #[trigger] field_matches(cpe_fields(a)[i], cpe_fields(b)[i])
}

/// The text of an attribute in a formatted string: its value, or `*` when absent.
pub open spec fn field_text(o: Option<Seq<char>>) -> Seq<char> {
    match o {
        Some(s) => s,
        None => seq!['*'],
    }
}

/// The CPE 2.3 formatted string of a CPE name.
pub open spec fn cpe_text(c: CpeView) -> Seq<char> {
    seq!['c', 'p', 'e', ':', '2', '.', '3', ':'] + join_fields(cpe_fields(c))
}

/// The texts of attributes joined by `:`.
pub open spec fn join_fields(fs: Seq<Option<Seq<char>>>) -> Seq<char>
    decreases fs.len(),
{
    if fs.len() == 0 {
        Seq::empty()
    } else if fs.len() == 1 {
        field_text(fs[0])
    } else {
        join_fields(fs.drop_last()).push(':') + field_text(fs.last())
    }
}

proof fn lemma_join_step(fs: Seq<Option<Seq<char>>>, n: int)
    requires
        2 <= n <= fs.len(),
    ensures
        join_fields(fs.take(n)) == join_fields(fs.take(n - 1)).push(':') + field_text(fs[n - 1]),
{
    assert(fs.take(n).drop_last() =~= fs.take(n - 1));
}

proof fn lemma_push_assoc(p: Seq<char>, j: Seq<char>, f: Seq<char>)
    ensures
        (p + j).push(':') + f == p + (j.push(':') + f),
{
    assert((p + j).push(':') + f =~= p + (j.push(':') + f));
}

fn fields_match(a: &Option<String>, b: &Option<String>) -> (r: bool)
    ensures
        r == field_matches(opt_view(*a), opt_view(*b)),
{
    proof {
        reveal_strlit("*");
        reveal_strlit("-");
        assert("*"@ =~= seq!['*']);
        assert("-"@ =~= seq!['-']);
    }
    match (a, b) {
        (None, _) => true,
        (_, None) => true,
        (Some(x), Some(y)) => {
            if str_eq(x.as_str(), "*") || str_eq(y.as_str(), "*") {
                return true;
            }
            if str_eq(x.as_str(), "-") || str_eq(y.as_str(), "-") {
                return false;
            }
            str_eq(x.as_str(), y.as_str())
        },
    }
}

fn push_field(out: &mut String, o: &Option<String>)
    ensures
        final(out)@ == old(out)@ + field_text(opt_view(*o)),
{
    match o {
        Some(s) => out.append(s.as_str()),
        None => push_char(out, '*'),
    }
}

impl CPE {
    /// Whether this CPE name matches `other`, attribute by attribute.
    pub fn matches(&self, other: &CPE) -> (r: bool)
        ensures
            r == cpe_matches(self@, other@),
    {
        let r = fields_match(&self.part, &other.part) && fields_match(&self.vendor, &other.vendor)
            && fields_match(&self.product, &other.product) && fields_match(
            &self.version,
            &other.version,
        ) && fields_match(&self.update, &other.update) && fields_match(
            &self.edition,
            &other.edition,
        ) && fields_match(&self.lang, &other.lang) && fields_match(
            &self.sw_edition,
            &other.sw_edition,
        ) && fields_match(&self.target_sw, &other.target_sw) && fields_match(
            &self.target_hw,
            &other.target_hw,
        ) && fields_match(&self.other, &other.other);
        proof {
            let fa = cpe_fields(self@);
            let fb = cpe_fields(other@);
            if r {
                assert forall|i: int| 0 <= i < 11 implies #[trigger] field_matches(fa[i], fb[i]) by {
                    assert(fa[0] == self@.part && fb[0] == other@.part);
                }
            } else {
                assert(!field_matches(fa[0], fb[0]) || !field_matches(fa[1], fb[1]) || !field_matches(fa[2], fb[2])
                    || !field_matches(fa[3], fb[3]) || !field_matches(fa[4], fb[4]) || !field_matches(fa[5], fb[5])
                    || !field_matches(fa[6], fb[6]) || !field_matches(fa[7], fb[7]) || !field_matches(fa[8], fb[8])
                    || !field_matches(fa[9], fb[9]) || !field_matches(fa[10], fb[10]));
            }
        }
        r
    }

    /// The CPE 2.3 formatted string of this name, with `*` for absent attributes.
    pub fn to_string(&self) -> (s: String)
        ensures
            s@ == cpe_text(self@),
    {
        let mut out = String::new();
        proof {
            reveal_strlit("cpe:2.3:");
            assert("cpe:2.3:"@ =~= seq!['c', 'p', 'e', ':', '2', '.', '3', ':']);
        }
        out.append("cpe:2.3:");
        let fields: [&Option<String>; 11] = [
            &self.part,
            &self.vendor,
            &self.product,
            &self.version,
            &self.update,
            &self.edition,
            &self.lang,
            &self.sw_edition,
            &self.target_sw,
            &self.target_hw,
            &self.other,
        ];
        let ghost fs = cpe_fields(self@);
        let ghost prefix = out@;
        assert(forall|j: int| 0 <= j < 11 ==> opt_view(*#[trigger] fields@[j]) == fs[j]);
        push_field(&mut out, fields[0]);
        assert(fs.take(1).drop_first().len() == 0);
        assert(join_fields(fs.take(1)) == field_text(fs[0]));
        let mut i: usize = 1;
        while i < 11
            invariant
                1 <= i <= 11,
                fs == cpe_fields(self@),
                forall|j: int| 0 <= j < 11 ==> opt_view(*#[trigger] fields@[j]) == fs[j],
                out@ == prefix + join_fields(fs.take(i as int)),
            decreases 11 - i,
        {
            push_char(&mut out, ':');
            push_field(&mut out, fields[i]);
            proof {
                lemma_join_step(fs, i + 1);
                lemma_push_assoc(prefix, join_fields(fs.take(i as int)), field_text(fs[i as int]));
            }
            i += 1;
        }
        assert(fs.take(11) =~= fs);
        out
    }
}

/// The configuration trees of a CVE.
pub type Configurations = Vec<ConfigurationNode>;

/// The value of a CPE attribute: absent for a wildcard, `-` for not applicable.
pub type AVString = Option<String>;

/// A node of the tree that says which platforms a CVE applies to.
#[derive(Debug)]
pub enum ConfigurationNode {
    Cpe(CPE),
    And { children: Vec<ConfigurationNode>, negate: bool },
    Or { children: Vec<ConfigurationNode>, negate: bool },
    Negate(Box<ConfigurationNode>),
    VersionRange {
        wrapped: CPE,
        start: Option<String>,
        end: Option<String>,
        include_start: bool,
        include_end: bool,
    },
}

fn clone_text(o: &Option<String>) -> (r: Option<String>)
    ensures
        r == *o,
{
    match o {
        Some(s) => Some(s.clone()),
        None => None,
    }
}

fn clone_cpe(c: &CPE) -> (r: CPE)
    ensures
        r@ == c@,
{
    CPE {
        part: clone_text(&c.part),
        vendor: clone_text(&c.vendor),
        product: clone_text(&c.product),
        version: clone_text(&c.version),
        update: clone_text(&c.update),
        edition: clone_text(&c.edition),
        lang: clone_text(&c.lang),
        sw_edition: clone_text(&c.sw_edition),
        target_sw: clone_text(&c.target_sw),
        target_hw: clone_text(&c.target_hw),
        other: clone_text(&c.other),
    }
}

fn clone_nodes(children: &Vec<ConfigurationNode>) -> (r: Vec<ConfigurationNode>)
    ensures
        nodes_view(r@) == nodes_view(children@),
    decreases children, 1int,
{
    let mut out: Vec<ConfigurationNode> = Vec::new();
    let mut i: usize = 0;
    while i < children.len()
        invariant
            i <= children@.len(),
            nodes_view(out@) == nodes_view(children@.take(i as int)),
        decreases children.len() - i,
    {
        proof {
            assert(decreases_to!(children@ => children@[i as int]));
            assert(decreases_to!(*children => children@));
        }
        let ghost before = out@;
        let x = clone_node(&children[i]);
        out.push(x);
        assert(nodes_view(out@) =~= nodes_view(before).push(node_view(x)));
        assert(children@.take(i + 1) =~= children@.take(i as int).push(children@[i as int]));
        assert(nodes_view(children@.take(i + 1)) =~= nodes_view(children@.take(i as int)).push(
            node_view(children@[i as int]),
        ));
        i += 1;
    }
    assert(children@.take(i as int) =~= children@);
    out
}

/// A copy of a configuration tree.
fn clone_node(n: &ConfigurationNode) -> (r: ConfigurationNode)
    ensures
        node_view(r) == node_view(*n),
    decreases n, 0int,
{
    match n {
        ConfigurationNode::Cpe(c) => ConfigurationNode::Cpe(clone_cpe(c)),
        ConfigurationNode::And { children, negate } => {
            proof {
                assert(decreases_to!(*n => n->And_children));
            }
            let ch = clone_nodes(children);
            let r = ConfigurationNode::And { children: ch, negate: *negate };
            assert(node_view(r)->And_children =~= nodes_view(ch@));
            assert(node_view(*n)->And_children =~= nodes_view(children@));
            r
        },
        ConfigurationNode::Or { children, negate } => {
            proof {
                assert(decreases_to!(*n => n->Or_children));
            }
            let ch = clone_nodes(children);
            let r = ConfigurationNode::Or { children: ch, negate: *negate };
            assert(node_view(r)->Or_children =~= nodes_view(ch@));
            assert(node_view(*n)->Or_children =~= nodes_view(children@));
            r
        },
        ConfigurationNode::Negate(b) => ConfigurationNode::Negate(Box::new(clone_node(b))),
        ConfigurationNode::VersionRange { wrapped, start, end, include_start, include_end } =>
            ConfigurationNode::VersionRange {
            wrapped: clone_cpe(wrapped),
            start: clone_text(start),
            end: clone_text(end),
            include_start: *include_start,
            include_end: *include_end,
        },
    }
}

impl Clone for ConfigurationNode {
    fn clone(&self) -> (r: Self)
        ensures
            node_view(r) == node_view(*self),
    {
        clone_node(self)
    }
}

/// A configuration tree, with characters in place of strings.
pub enum NodeView {
    Cpe(CpeView),
    And { children: Seq<NodeView>, negate: bool },
    Or { children: Seq<NodeView>, negate: bool },
    Negate(Box<NodeView>),
    VersionRange {
        wrapped: CpeView,
        start: Option<Seq<char>>,
        end: Option<Seq<char>>,
        include_start: bool,
        include_end: bool,
    },
}

/// The view of a configuration node.
pub open spec fn node_view(n: ConfigurationNode) -> NodeView
    decreases n,
{
    match n {
        ConfigurationNode::Cpe(c) => NodeView::Cpe(c@),
        ConfigurationNode::And { children, negate } => NodeView::And {
            children: Seq::new(
                children@.len(),
                |i: int|
                    if 0 <= i < children@.len() {
                        node_view(children@[i])
                    } else {
                        NodeView::And { children: Seq::empty(), negate: false }
                    },
            ),
            negate,
        },
        ConfigurationNode::Or { children, negate } => NodeView::Or {
            children: Seq::new(
                children@.len(),
                |i: int|
                    if 0 <= i < children@.len() {
                        node_view(children@[i])
                    } else {
                        NodeView::And { children: Seq::empty(), negate: false }
                    },
            ),
            negate,
        },
        ConfigurationNode::Negate(b) => NodeView::Negate(Box::new(node_view(*b))),
        ConfigurationNode::VersionRange { wrapped, start, end, include_start, include_end } =>
            NodeView::VersionRange {
            wrapped: wrapped@,
            start: opt_view(start),
            end: opt_view(end),
            include_start,
            include_end,
        },
    }
}

/// The views of a list of configuration nodes.
pub open spec fn nodes_view(ns: Seq<ConfigurationNode>) -> Seq<NodeView> {
    Seq::new(ns.len(), |i: int| node_view(ns[i]))
}

/// Whether a version lies within the bounds of a range; bounds compare as `str` does, and
/// a CPE without a version is in every range.
pub open spec fn version_in_range(
    version: Option<Seq<char>>,
    start: Option<Seq<char>>,
    end: Option<Seq<char>>,
    include_start: bool,
    include_end: bool,
) -> bool {
    match version {
        None => true,
        Some(v) => {
            &&& match start {
                None => true,
                Some(s) => if include_start {
                    !str_lt(v, s)
                } else {
                    !str_le(v, s)
                },
            }
            &&& match end {
                None => true,
                Some(e) => if include_end {
                    !str_lt(e, v)
                } else {
                    !str_le(e, v)
                },
            }
        },
    }
}

/// Whether a configuration tree applies to a CPE name.
pub open spec fn node_matches(n: NodeView, c: CpeView) -> bool
    decreases n,
{
    match n {
        NodeView::Cpe(x) => cpe_matches(x, c),
        NodeView::And { children, negate } => (forall|i: int|
            0 <= i < children.len() ==> node_matches(#[trigger] children[i], c)) != negate,
        NodeView::Or { children, negate } => (exists|i: int|
            0 <= i < children.len() && node_matches(#[trigger] children[i], c)) != negate,
        NodeView::Negate(b) => !node_matches(*b, c),
        NodeView::VersionRange { wrapped, start, end, include_start, include_end } =>
            version_in_range(c.version, start, end, include_start, include_end) && cpe_matches(
            wrapped,
            c,
        ),
    }
}

/// The operators of configuration trees: an `Or` applies when some child applies, an `And`
/// when every child does, and the `negate` flag of either inverts that; a `Negate` node
/// applies exactly when the tree it wraps does not.
pub proof fn law_node_combinators(children: Seq<NodeView>, negate: bool, wrapped: NodeView, c: CpeView)
    ensures
        node_matches(NodeView::Or { children, negate }, c) == ((exists|j: int|
            0 <= j < children.len() && node_matches(#[trigger] children[j], c)) != negate),
        node_matches(NodeView::And { children, negate }, c) == ((forall|j: int|
            0 <= j < children.len() ==> node_matches(#[trigger] children[j], c)) != negate),
        node_matches(NodeView::Negate(Box::new(wrapped)), c) == !node_matches(wrapped, c),
{
    let o = NodeView::Or { children, negate };
    let a = NodeView::And { children, negate };
    assert(o->Or_children == children);
    assert(a->And_children == children);
    if exists|j: int| 0 <= j < children.len() && node_matches(#[trigger] children[j], c) {
        let j = choose|j: int| 0 <= j < children.len() && node_matches(#[trigger] children[j], c);
        assert(node_matches(o->Or_children[j], c));
    }
    if !(forall|j: int| 0 <= j < children.len() ==> node_matches(#[trigger] children[j], c)) {
        let j = choose|j: int| !(0 <= j < children.len() ==> node_matches(#[trigger] children[j], c));
        assert(!node_matches(a->And_children[j], c));
    }
}

/// A version range admits a CPE name exactly when its wrapped name matches and the name's
/// version lies at or above the start (strictly above when the start is excluded) and at or
/// below the end (strictly below when the end is excluded), in the order of `str`; a name
/// without a version lies in every range, and an absent bound admits every version.
pub proof fn law_version_range_bounds(
    wrapped: CpeView,
    start: Option<Seq<char>>,
    end: Option<Seq<char>>,
    include_start: bool,
    include_end: bool,
    c: CpeView,
)
    ensures
        node_matches(
            NodeView::VersionRange { wrapped, start, end, include_start, include_end },
            c,
        ) <==> cpe_matches(wrapped, c) && match c.version {
            None => true,
            Some(v) => {
                &&& match start {
                    None => true,
                    Some(s) => if include_start {
                        str_le(s, v)
                    } else {
                        str_lt(s, v)
                    },
                }
                &&& match end {
                    None => true,
                    Some(e) => if include_end {
                        str_le(v, e)
                    } else {
                        str_lt(v, e)
                    },
                }
            },
        },
{
    if let Some(v) = c.version {
        if let Some(s) = start {
            lemma_str_lt_total(v, s);
            lemma_str_lt_total(s, s);
        }
        if let Some(e) = end {
            lemma_str_lt_total(v, e);
            lemma_str_lt_total(e, e);
        }
    }
}

fn version_ok(
    version: &Option<String>,
    start: &Option<String>,
    end: &Option<String>,
    include_start: bool,
    include_end: bool,
) -> (r: bool)
    ensures
        r == version_in_range(opt_view(*version), opt_view(*start), opt_view(*end), include_start, include_end),
{
    if let Some(ver) = version {
        if let Some(s) = start {
            if include_start {
                if str_less(ver.as_str(), s.as_str()) {
                    return false;
                }
            } else {
                if str_less_eq(ver.as_str(), s.as_str()) {
                    return false;
                }
            }
        }
        if let Some(e) = end {
            if include_end {
                if str_less(e.as_str(), ver.as_str()) {
                    return false;
                }
            } else {
                if str_less_eq(e.as_str(), ver.as_str()) {
                    return false;
                }
            }
        }
    }
    true
}

impl ConfigurationNode {
    /// Whether this configuration tree applies to `cpe`.
    pub fn matches(&self, cpe: &CPE) -> (r: bool)
        ensures
            r == node_matches(node_view(*self), cpe@),
        decreases self,
    {
        match self {
            ConfigurationNode::Cpe(c) => c.matches(cpe),
            ConfigurationNode::And { children, negate } => {
                let mut i: usize = 0;
                let mut all = true;
                while i < children.len()
                    invariant
                        i <= children.len(),
                        *self == (ConfigurationNode::And { children: *children, negate: *negate }),
                        all == (forall|j: int|
                            0 <= j < i ==> node_matches(#[trigger] node_view(children@[j]), cpe@)),
                    decreases children.len() - i,
                {
                    proof {
                        let ghost cs: Vec<ConfigurationNode> = *children;
                        assert(decreases_to!(cs@ => cs@[i as int]));
                        assert(decreases_to!(cs => cs@));
                        assert(self->And_children == cs);
                        assert(decreases_to!(*self => self->And_children));
                    }
                    let m = children[i].matches(cpe);
                    all = all && m;
                    i += 1;
                }
                proof {
                    let v = node_view(*self);
                    let ch = v->And_children;
                    assert(forall|j: int| 0 <= j < ch.len() ==> ch[j] == node_view(children@[j]));
                    if !all {
                        let j = choose|j: int|
                            0 <= j < children@.len() && !node_matches(#[trigger] node_view(children@[j]), cpe@);
                        assert(ch[j] == node_view(children@[j]));
                    }
                }
                if *negate {
                    !all
                } else {
                    all
                }
            },
            ConfigurationNode::Or { children, negate } => {
                let mut i: usize = 0;
                let mut any = false;
                while i < children.len()
                    invariant
                        i <= children.len(),
                        *self == (ConfigurationNode::Or { children: *children, negate: *negate }),
                        any == (exists|j: int|
                            0 <= j < i && node_matches(#[trigger] node_view(children@[j]), cpe@)),
                    decreases children.len() - i,
                {
                    proof {
                        let ghost cs: Vec<ConfigurationNode> = *children;
                        assert(decreases_to!(cs@ => cs@[i as int]));
                        assert(decreases_to!(cs => cs@));
                        assert(self->Or_children == cs);
                        assert(decreases_to!(*self => self->Or_children));
                    }
                    let m = children[i].matches(cpe);
                    any = any || m;
                    i += 1;
                }
                proof {
                    let v = node_view(*self);
                    let ch = v->Or_children;
                    assert(forall|j: int| 0 <= j < ch.len() ==> ch[j] == node_view(children@[j]));
                    if any {
                        let j = choose|j: int|
                            0 <= j < children@.len() && node_matches(#[trigger] node_view(children@[j]), cpe@);
                        assert(ch[j] == node_view(children@[j]));
                    }
                }
                if *negate {
                    !any
                } else {
                    any
                }
            },
            ConfigurationNode::Negate(wrapped) => !wrapped.matches(cpe),
            ConfigurationNode::VersionRange { wrapped, start, end, include_start, include_end } => {
                version_ok(&cpe.version, start, end, *include_start, *include_end)
                    && wrapped.matches(cpe)
            },
        }
    }
}

/// A point in time: whole seconds since the Unix epoch and the nanoseconds past them.
#[derive(Debug, Clone, Copy, PartialEq, Eq, Structural)]
pub struct Timestamp {
    pub secs: i64,
    pub nanos: u32,
}

/// Whether `a` is no later than `b`.
pub open spec fn time_le(a: Timestamp, b: Timestamp) -> bool {
    a.secs < b.secs || (a.secs == b.secs && a.nanos <= b.nanos)
}

/// The number of the UTC calendar day that contains a point in time, counted from the epoch.
pub open spec fn utc_day(t: Timestamp) -> int {
    t.secs as int / 86400
}

impl Timestamp {
    /// Whether this point in time is no later than `other`.
    pub fn is_at_or_before(&self, other: &Timestamp) -> (r: bool)
        ensures
            r == time_le(*self, *other),
    {
        self.secs < other.secs || (self.secs == other.secs && self.nanos <= other.nanos)
    }

    /// The UTC calendar day that contains this point in time, counted from the epoch.
    pub fn day(&self) -> (d: i64)
        ensures
            d == utc_day(*self),
    {
        let q = self.secs / 86400;
        let r = self.secs % 86400;
        if r < 0 {
            q - 1
        } else {
            q
        }
    }
}

/// The first second that `chrono::DateTime::from_timestamp` accepts, -262143-01-01T00:00:00 UTC.
pub const MIN_UTC_SECS: i64 = -8334601228800;

/// The last second that `chrono::DateTime::from_timestamp` accepts, 262142-12-31T23:59:59 UTC.
pub const MAX_UTC_SECS: i64 = 8210266876799;

/// The point in time that `chrono::DateTime::from_timestamp(secs, 0)` gives, if it is in
/// chrono's range.
pub uninterp spec fn utc_from_secs(secs: i64) -> Option<Timestamp>;

/// The point in time `secs` seconds after the epoch.
///
/// Calls `chrono::DateTime::from_timestamp(secs, 0)`, which gives `None` for seconds out of
/// chrono's range of dates and otherwise a time that round-trips with `timestamp()`; the
/// contract claims that a result has those seconds and no nanoseconds, and that there is a
/// result exactly for the seconds from -262143-01-01T00:00:00 to 262142-12-31T23:59:59,
/// the first and last days of chrono's years `MIN_YEAR` and `MAX_YEAR`.
#[verifier::external_body]
pub(crate) fn timestamp_at(secs: i64) -> (r: Option<Timestamp>)
    ensures
        r == utc_from_secs(secs),
        r matches Some(t) ==> t == (Timestamp { secs, nanos: 0 }),
        r is Some <==> MIN_UTC_SECS <= secs <= MAX_UTC_SECS,
{
    match chrono::DateTime::from_timestamp(secs, 0) {
        Some(dt) => Some(Timestamp { secs: dt.timestamp(), nanos: dt.timestamp_subsec_nanos() }),
        None => None,
    }
}

/// The time stored as `secs`, or the epoch where chrono has no such time.
pub open spec fn stored_time(secs: i64) -> Timestamp {
    match utc_from_secs(secs) {
        Some(t) => t,
        None => Timestamp { secs: 0, nanos: 0 },
    }
}

/// The time stored as `secs`, or the epoch where chrono has no such time.
pub fn time_or_epoch(secs: i64) -> (t: Timestamp)
    ensures
        t == stored_time(secs),
        t == (Timestamp { secs, nanos: 0 }) || t == (Timestamp { secs: 0, nanos: 0 }),
        MIN_UTC_SECS <= secs <= MAX_UTC_SECS ==> t == (Timestamp { secs, nanos: 0 }),
        !(MIN_UTC_SECS <= secs <= MAX_UTC_SECS) ==> t == (Timestamp { secs: 0, nanos: 0 }),
        MIN_UTC_SECS <= t.secs <= MAX_UTC_SECS,
{
    match timestamp_at(secs) {
        Some(t) => t,
        None => Timestamp { secs: 0, nanos: 0 },
    }
}

/// A CVE record as the search logic reads it.
#[derive(Debug, Clone)]
pub struct CVE {
    pub cve_id: String,
    pub feed: i64,
    pub published: Timestamp,
    pub last_modified: Timestamp,
    pub impact_vector: Option<String>,
    pub severity: Severity,
    pub descriptions: Vec<Description>,
    pub references: Vec<Reference>,
    pub configurations: Configurations,
    pub assigner: Option<String>,
}

impl CVE {
    /// The English description, or else the first one.
    pub fn description_en(&self) -> (r: Option<&str>)
        ensures
            (exists|i: int|
                0 <= i < self.descriptions@.len() && #[trigger] self.descriptions@[i].lang@ == "en"@)
                ==> (exists|i: int|
                0 <= i < self.descriptions@.len() && #[trigger] self.descriptions@[i].lang@ == "en"@
                    && (forall|j: int| 0 <= j < i ==> self.descriptions@[j].lang@ != "en"@)
                    && r is Some && r.unwrap()@ == self.descriptions@[i].value@),
            !(exists|i: int|
                0 <= i < self.descriptions@.len() && #[trigger] self.descriptions@[i].lang@ == "en"@)
                ==> (if self.descriptions@.len() > 0 {
                r is Some && r.unwrap()@ == self.descriptions@[0].value@
            } else {
                r is None
            }),
    {
        let mut i: usize = 0;
        while i < self.descriptions.len()
            invariant
                i <= self.descriptions@.len(),
                forall|j: int| 0 <= j < i ==> self.descriptions@[j].lang@ != "en"@,
            decreases self.descriptions.len() - i,
        {
            if str_eq(self.descriptions[i].lang.as_str(), "en") {
                return Some(self.descriptions[i].value.as_str());
            }
            i += 1;
        }
        if self.descriptions.len() > 0 {
            Some(self.descriptions[0].value.as_str())
        } else {
            None
        }
    }
}

} // verus!
