//! The compact text format in which configuration trees are stored.
//!
//! A list is its length in decimal and a newline, then its nodes. A node starts with a tag
//! byte: `c` and a CPE formatted string on its own line; `a` or `o` (all or any), a negation
//! flag (`I` or `O`) and a list; `!` and a node; `v`, a flag and a line for the lower bound,
//! a flag and a line for the upper bound, then the bounded CPE as a `c` node. `C` wraps a list
//! into an `o` node, or into its only element.
use vstd::prelude::*;
use vstd::utf8::{decode_utf8, valid_utf8};
use crate::cve::{cpe_text, Configurations, node_view, nodes_view, opt_view, ConfigurationNode, CpeView, NodeView, CPE};
use crate::text::{
    chars_of, decimal, lemma_decode_valid, push_char, push_decimal, str_eq, str_from_utf8, string_of,
    utf8,
};

verus! {

broadcast use vstd::seq::group_seq_axioms;

/// The flag character of a boolean.
pub open spec fn flag_char(b: bool) -> char {
    if b { 'I' } else { 'O' }
}

/// The text of an optional bound: the string, or nothing.
pub open spec fn bound_text(o: Option<Seq<char>>) -> Seq<char> {
    match o {
        Some(s) => s,
        None => Seq::empty(),
    }
}

/// The stored form of a node.
pub open spec fn ser_node(n: NodeView) -> Seq<char>
    decreases n,
{
    match n {
        NodeView::Cpe(c) => seq!['c'] + cpe_text(c) + seq!['\n'],
        NodeView::And { children, negate } => seq!['a', flag_char(negate)] + decimal(children.len())
            + seq!['\n'] + ser_nodes(children),
        NodeView::Or { children, negate } => seq!['o', flag_char(negate)] + decimal(children.len())
            + seq!['\n'] + ser_nodes(children),
        NodeView::Negate(b) => seq!['!'] + ser_node(*b),
        NodeView::VersionRange { wrapped, start, end, include_start, include_end } => seq![
            'v',
            flag_char(include_start),
        ] + bound_text(start) + seq!['\n', flag_char(include_end)] + bound_text(end) + seq![
            '\n',
            'c',
        ] + cpe_text(wrapped) + seq!['\n'],
    }
}

/// The stored forms of nodes, one after the other.
pub open spec fn ser_nodes(ns: Seq<NodeView>) -> Seq<char>
    decreases ns,
{
    if ns.len() == 0 {
        Seq::empty()
    } else {
        ser_nodes(ns.drop_last()) + ser_node(ns.last())
    }
}

/// The stored form of a list of nodes.
pub open spec fn ser_list(ns: Seq<NodeView>) -> Seq<char> {
    decimal(ns.len()) + seq!['\n'] + ser_nodes(ns)
}

proof fn lemma_ser_nodes_step(ns: Seq<NodeView>, i: int)
    requires
        0 <= i < ns.len(),
    ensures
        ser_nodes(ns.take(i + 1)) == ser_nodes(ns.take(i)) + ser_node(ns[i]),
{
    assert(ns.take(i + 1).drop_last() =~= ns.take(i));
}

fn push_flag(out: &mut String, b: bool)
    ensures
        final(out)@ == old(out)@.push(flag_char(b)),
{
    push_char(out, if b { 'I' } else { 'O' });
}

fn push_cpe_line(out: &mut String, c: &CPE)
    ensures
        final(out)@ == old(out)@ + (seq!['c'] + cpe_text(c@) + seq!['\n']),
{
    let ghost start = out@;
    push_char(out, 'c');
    let text = c.to_string();
    out.append(text.as_str());
    push_char(out, '\n');
    assert(out@ =~= start + (seq!['c'] + cpe_text(c@) + seq!['\n']));
}

fn push_bound(out: &mut String, o: &Option<String>)
    ensures
        final(out)@ == old(out)@ + bound_text(opt_view(*o)),
{
    if let Some(s) = o {
        out.append(s.as_str());
    } else {
        assert(old(out)@ + bound_text(opt_view(*o)) =~= old(out)@);
    }
}

fn serialize_config_list(nodes: &Vec<ConfigurationNode>, out: &mut String)
    ensures
        final(out)@ == old(out)@ + ser_list(nodes_view(nodes@)),
    decreases nodes, 1int,
{
    let ghost start = out@;
    let ghost vs = nodes_view(nodes@);
    push_decimal(out, nodes.len() as u64);
    push_char(out, '\n');
    assert(vs.take(0) =~= Seq::<NodeView>::empty());
    let mut i: usize = 0;
    while i < nodes.len()
        invariant
            i <= nodes@.len(),
            vs == nodes_view(nodes@),
            out@ == start + decimal(nodes@.len() as nat) + seq!['\n'] + ser_nodes(vs.take(i as int)),
        decreases nodes.len() - i,
    {
        proof {
            assert(decreases_to!(nodes@ => nodes@[i as int]));
            assert(decreases_to!(*nodes => nodes@));
        }
        serialize_node(&nodes[i], out);
        proof {
            lemma_ser_nodes_step(vs, i as int);
            assert(vs[i as int] == node_view(nodes@[i as int]));
        }
        i += 1;
    }
    assert(vs.take(i as int) =~= vs);
}

fn serialize_node(node: &ConfigurationNode, out: &mut String)
    ensures
        final(out)@ == old(out)@ + ser_node(node_view(*node)),
    decreases node, 0int,
{
    let ghost start = out@;
    match node {
        ConfigurationNode::Cpe(cpe) => {
            push_cpe_line(out, cpe);
        },
        ConfigurationNode::And { children, negate } => {
            push_char(out, 'a');
            push_flag(out, *negate);
            proof {
                assert(decreases_to!(*node => node->And_children));
            }
            serialize_config_list(children, out);
            proof {
                assert(node_view(*node)->And_children =~= nodes_view(children@));
                assert(out@ =~= start + ser_node(node_view(*node)));
            }
        },
        ConfigurationNode::Or { children, negate } => {
            push_char(out, 'o');
            push_flag(out, *negate);
            proof {
                assert(decreases_to!(*node => node->Or_children));
            }
            serialize_config_list(children, out);
            proof {
                assert(node_view(*node)->Or_children =~= nodes_view(children@));
                assert(out@ =~= start + ser_node(node_view(*node)));
            }
        },
        ConfigurationNode::Negate(wrapped) => {
            push_char(out, '!');
            serialize_node(wrapped, out);
            assert(out@ =~= start + ser_node(node_view(*node)));
        },
        ConfigurationNode::VersionRange { wrapped, start: lo, end: hi, include_start, include_end } => {
            push_char(out, 'v');
            push_flag(out, *include_start);
            push_bound(out, lo);
            push_char(out, '\n');
            push_flag(out, *include_end);
            push_bound(out, hi);
            push_char(out, '\n');
            push_cpe_line(out, wrapped);
            assert(out@ =~= start + ser_node(node_view(*node)));
        },
    }
}

/// Serialize configuration tree to the compact string format
pub fn serialize_configurations(configs: &[ConfigurationNode]) -> (s: String)
    ensures
        s@ == ser_list(nodes_view(configs@)),
{
    let mut out = String::new();
    let ghost vs = nodes_view(configs@);
    push_decimal(&mut out, configs.len() as u64);
    push_char(&mut out, '\n');
    assert(vs.take(0) =~= Seq::<NodeView>::empty());
    let mut i: usize = 0;
    while i < configs.len()
        invariant
            i <= configs@.len(),
            vs == nodes_view(configs@),
            out@ == decimal(configs@.len() as nat) + seq!['\n'] + ser_nodes(vs.take(i as int)),
        decreases configs.len() - i,
    {
        serialize_node(&configs[i], &mut out);
        proof {
            lemma_ser_nodes_step(vs, i as int);
            assert(vs[i as int] == node_view(configs@[i as int]));
        }
        i += 1;
    }
    assert(vs.take(i as int) =~= vs);
    assert(out@ =~= ser_list(vs));
    out
}

/// Why stored configuration text could not be read.
pub enum ConfigFault {
    /// The text ends where a node should start.
    UnexpectedEndOfData,
    /// The text ends where a flag should stand.
    UnexpectedEnd,
    /// No digit where a count should stand.
    ExpectedInteger,
    /// A count larger than `usize` can hold.
    IntegerTooLarge,
    /// A CPE line that is not UTF-8 text; it holds the bytes of the line.
    InvalidUtf8(Seq<u8>),
    /// A node tag that no node has; it holds the byte found.
    UnknownNodeUid(u8),
    /// A version range whose bounded node is not a CPE; it holds that node.
    VersionRangeWrapsNonCpe(NodeView),
    /// A CPE line that is not a CPE 2.3 formatted string; it holds the trimmed line.
    InvalidCpe(Seq<char>),
}

/// The text that `<str as Debug>::fmt` writes for a string: quoted and escaped.
pub uninterp spec fn str_debug_text(s: Seq<char>) -> Seq<char>;

/// The text that `<char as Debug>::fmt` writes for a character: quoted and escaped.
pub uninterp spec fn char_debug_text(c: char) -> Seq<char>;

/// The text of the error `std::str::from_utf8` gives for bytes that are not UTF-8.
pub uninterp spec fn utf8_error_text(b: Seq<u8>) -> Seq<char>;

/// Writes a string as `Debug` does.
///
/// Calls `<str as Debug>::fmt` through `format!("{:?}")`, which quotes the string and
/// escapes its special characters; the contract only ties the text to the string through
/// the name `str_debug_text`.
#[verifier::external_body]
fn str_debug(s: &str) -> (r: String)
    ensures
        r@ == str_debug_text(s@),
{
    format!("{:?}", s)
}

/// Writes a character as `Debug` does.
///
/// Calls `<char as Debug>::fmt` through `format!("{:?}")`, which quotes the character and
/// escapes it where needed; the contract only ties the text to the character through the
/// name `char_debug_text`.
#[verifier::external_body]
fn char_debug(c: char) -> (r: String)
    ensures
        r@ == char_debug_text(c),
{
    format!("{:?}", c)
}

/// The `Debug` text of an optional string.
pub open spec fn debug_opt(o: Option<Seq<char>>) -> Seq<char> {
    match o {
        Some(s) => "Some("@ + str_debug_text(s) + ")"@,
        None => "None"@,
    }
}

/// The `Debug` text of a boolean.
pub open spec fn debug_bool(b: bool) -> Seq<char> {
    if b {
        "true"@
    } else {
        "false"@
    }
}

/// The `Debug` text of a CPE name.
pub open spec fn debug_cpe(c: CpeView) -> Seq<char> {
    "CPE { part: "@ + debug_opt(c.part) + ", vendor: "@ + debug_opt(c.vendor) + ", product: "@
        + debug_opt(c.product) + ", version: "@ + debug_opt(c.version) + ", update: "@ + debug_opt(
        c.update,
    ) + ", edition: "@ + debug_opt(c.edition) + ", lang: "@ + debug_opt(c.lang) + ", sw_edition: "@
        + debug_opt(c.sw_edition) + ", target_sw: "@ + debug_opt(c.target_sw) + ", target_hw: "@
        + debug_opt(c.target_hw) + ", other: "@ + debug_opt(c.other) + " }"@
}

/// The `Debug` text of a configuration tree, as the derived `Debug` writes it.
pub open spec fn debug_node(n: NodeView) -> Seq<char>
    decreases n, 0int,
{
    match n {
        NodeView::Cpe(c) => "Cpe("@ + debug_cpe(c) + ")"@,
        NodeView::And { children, negate } => "And { children: ["@ + debug_nodes_upto(children, children.len() as int)
            + "], negate: "@ + debug_bool(negate) + " }"@,
        NodeView::Or { children, negate } => "Or { children: ["@ + debug_nodes_upto(children, children.len() as int)
            + "], negate: "@ + debug_bool(negate) + " }"@,
        NodeView::Negate(b) => "Negate("@ + debug_node(*b) + ")"@,
        NodeView::VersionRange { wrapped, start, end, include_start, include_end } =>
            "VersionRange { wrapped: "@ + debug_cpe(wrapped) + ", start: "@ + debug_opt(start)
                + ", end: "@ + debug_opt(end) + ", include_start: "@ + debug_bool(include_start)
                + ", include_end: "@ + debug_bool(include_end) + " }"@,
    }
}

/// The `Debug` texts of the first `k` trees of `ns`, separated by `, `.
pub open spec fn debug_nodes_upto(ns: Seq<NodeView>, k: int) -> Seq<char>
    decreases ns, k,
{
    if k <= 0 || k > ns.len() {
        Seq::empty()
    } else if k == 1 {
        debug_node(ns[0])
    } else {
        debug_nodes_upto(ns, k - 1) + ", "@ + debug_node(ns[k - 1])
    }
}

/// The message of a fault, as the error text of reading configurations.
pub open spec fn fault_message(f: ConfigFault) -> Seq<char> {
    match f {
        ConfigFault::UnexpectedEndOfData => "unexpected end of config data"@,
        ConfigFault::UnexpectedEnd => "unexpected end"@,
        ConfigFault::ExpectedInteger => "expected integer"@,
        ConfigFault::IntegerTooLarge => "parse error: number too large to fit in target type"@,
        ConfigFault::InvalidUtf8(b) => utf8_error_text(b),
        ConfigFault::UnknownNodeUid(u) => "unknown configuration node UID: "@ + char_debug_text(
            u as char,
        ),
        ConfigFault::VersionRangeWrapsNonCpe(n) => "VersionRange wraps non-CPE node: "@
            + debug_node(n),
        ConfigFault::InvalidCpe(fs) => "invalid CPE formatted string: "@ + fs,
    }
}

/// An ASCII decimal digit.
pub open spec fn is_digit(b: u8) -> bool {
    48 <= b <= 57
}

/// The first position at or after `p` that does not hold a digit.
pub open spec fn digits_end(b: Seq<u8>, p: int) -> int
    decreases b.len() - p,
{
    if 0 <= p < b.len() && is_digit(b[p]) {
        digits_end(b, p + 1)
    } else {
        p
    }
}

/// The value of a decimal numeral.
pub open spec fn digits_value(d: Seq<u8>) -> nat
    decreases d.len(),
{
    if d.len() == 0 {
        0
    } else {
        digits_value(d.drop_last()) * 10 + (d.last() - 48) as nat
    }
}

/// The first position at or after `p` that holds a newline, or the end.
pub open spec fn line_end(b: Seq<u8>, p: int) -> int
    decreases b.len() - p,
{
    if 0 <= p < b.len() && b[p] != 10 {
        line_end(b, p + 1)
    } else {
        p
    }
}

/// The position after the byte at `e`, if there is one.
pub open spec fn skip_one(b: Seq<u8>, e: int) -> int {
    if e < b.len() { e + 1 } else { e }
}

/// Reads a count: digits, then an optional newline.
pub open spec fn spec_parse_int(b: Seq<u8>, p: int) -> Result<(nat, int), ConfigFault> {
    let e = digits_end(b, p);
    if e == p {
        Err(ConfigFault::ExpectedInteger)
    } else if digits_value(b.subrange(p, e)) > usize::MAX {
        Err(ConfigFault::IntegerTooLarge)
    } else {
        Ok((digits_value(b.subrange(p, e)), if e < b.len() && b[e] == 10 { e + 1 } else { e }))
    }
}

/// Reads a flag: one byte, set when it is `I`.
pub open spec fn spec_parse_flag(b: Seq<u8>, p: int) -> Result<(bool, int), ConfigFault> {
    if p < 0 || p >= b.len() {
        Err(ConfigFault::UnexpectedEnd)
    } else {
        Ok((b[p] == 73, p + 1))
    }
}

/// Reads an optional bound: the rest of the line, absent when empty. A line that is not
/// UTF-8 reads as absent and leaves the position at its end.
pub open spec fn spec_parse_line(b: Seq<u8>, p: int) -> (Option<Seq<char>>, int) {
    let e = line_end(b, p);
    let seg = b.subrange(p, e);
    if !valid_utf8(seg) {
        (None, e)
    } else if e == p {
        (None, skip_one(b, e))
    } else {
        (Some(decode_utf8(seg)), skip_one(b, e))
    }
}

/// Unicode White_Space, the characters that `str::trim` removes.
pub open spec fn is_white_space(c: char) -> bool {
    let u = c as u32;
    (0x9 <= u <= 0xd) || u == 0x20 || u == 0x85 || u == 0xa0 || u == 0x1680 || (0x2000 <= u
        <= 0x200a) || u == 0x2028 || u == 0x2029 || u == 0x202f || u == 0x205f || u == 0x3000
}

/// A string without its leading white space.
pub open spec fn trim_start(s: Seq<char>) -> Seq<char>
    decreases s.len(),
{
    if s.len() > 0 && is_white_space(s[0]) {
        trim_start(s.drop_first())
    } else {
        s
    }
}

/// A string without its trailing white space.
pub open spec fn trim_end(s: Seq<char>) -> Seq<char>
    decreases s.len(),
{
    if s.len() > 0 && is_white_space(s.last()) {
        trim_end(s.drop_last())
    } else {
        s
    }
}

/// A string without leading and trailing white space.
pub open spec fn trim(s: Seq<char>) -> Seq<char> {
    trim_end(trim_start(s))
}

/// The pieces of a string between occurrences of a separator, as `str::split` yields them.
pub open spec fn split_on(s: Seq<char>, sep: char) -> Seq<Seq<char>>
    decreases s.len(),
{
    if s.len() == 0 {
        seq![Seq::empty()]
    } else {
        let r = split_on(s.drop_last(), sep);
        if s.last() == sep {
            r.push(Seq::empty())
        } else {
            r.update(r.len() - 1, r.last().push(s.last()))
        }
    }
}

/// The CPE name that a CPE 2.3 formatted string denotes: at least 13 `:`-separated pieces,
/// the first two `cpe` and `2.3`, the next eleven the attributes.
pub open spec fn cpe_of_fs(fs: Seq<char>) -> Option<CpeView> {
    let parts = split_on(fs, ':');
    if parts.len() < 13 || parts[0] != seq!['c', 'p', 'e'] || parts[1] != seq!['2', '.', '3'] {
        None
    } else {
        Some(
            CpeView {
                part: Some(parts[2]),
                vendor: Some(parts[3]),
                product: Some(parts[4]),
                version: Some(parts[5]),
                update: Some(parts[6]),
                edition: Some(parts[7]),
                lang: Some(parts[8]),
                sw_edition: Some(parts[9]),
                target_sw: Some(parts[10]),
                target_hw: Some(parts[11]),
                other: Some(parts[12]),
            },
        )
    }
}

/// Reads a CPE line: the rest of the line, trimmed, as a CPE formatted string.
pub open spec fn spec_parse_cpe_line(b: Seq<u8>, p: int) -> Result<(CpeView, int), ConfigFault> {
    let e = line_end(b, p);
    let seg = b.subrange(p, e);
    if !valid_utf8(seg) {
        Err(ConfigFault::InvalidUtf8(seg))
    } else {
        match cpe_of_fs(trim(decode_utf8(seg))) {
            Some(c) => Ok((c, skip_one(b, e))),
            None => Err(ConfigFault::InvalidCpe(trim(decode_utf8(seg)))),
        }
    }
}

pub proof fn lemma_digits_end_bounds(b: Seq<u8>, p: int)
    requires
        0 <= p <= b.len(),
    ensures
        p <= digits_end(b, p) <= b.len(),
        forall|i: int| p <= i < digits_end(b, p) ==> is_digit(#[trigger] b[i]),
        digits_end(b, p) < b.len() ==> !is_digit(b[digits_end(b, p)]),
    decreases b.len() - p,
{
    if p < b.len() && is_digit(b[p]) {
        lemma_digits_end_bounds(b, p + 1);
    }
}

pub proof fn lemma_line_end_bounds(b: Seq<u8>, p: int)
    requires
        0 <= p <= b.len(),
    ensures
        p <= line_end(b, p) <= b.len(),
        forall|i: int| p <= i < line_end(b, p) ==> #[trigger] b[i] != 10,
        line_end(b, p) < b.len() ==> b[line_end(b, p)] == 10,
    decreases b.len() - p,
{
    if p < b.len() && b[p] != 10 {
        lemma_line_end_bounds(b, p + 1);
    }
}

/// Reads a node.
pub open spec fn spec_parse_node(b: Seq<u8>, p: int) -> Result<(NodeView, int), ConfigFault>
    decreases b.len() - p, 0int,
{
    if p < 0 || p >= b.len() {
        Err(ConfigFault::UnexpectedEndOfData)
    } else {
        let uid = b[p];
        if uid == 99 {
            match spec_parse_cpe_line(b, p + 1) {
                Ok((c, q)) => Ok((NodeView::Cpe(c), q)),
                Err(e) => Err(e),
            }
        } else if uid == 67 {
            match spec_parse_list(b, p + 1) {
                Ok((ch, q)) => Ok(
                    (
                        if ch.len() == 1 {
                            ch[0]
                        } else {
                            NodeView::Or { children: ch, negate: false }
                        },
                        q,
                    ),
                ),
                Err(e) => Err(e),
            }
        } else if uid == 97 || uid == 111 {
            match spec_parse_flag(b, p + 1) {
                Err(e) => Err(e),
                Ok((negate, q)) => match spec_parse_list(b, q) {
                    Err(e) => Err(e),
                    Ok((children, q2)) => Ok(
                        (
                            if uid == 97 {
                                NodeView::And { children, negate }
                            } else {
                                NodeView::Or { children, negate }
                            },
                            q2,
                        ),
                    ),
                },
            }
        } else if uid == 33 {
            match spec_parse_node(b, p + 1) {
                Ok((x, q)) => Ok((NodeView::Negate(Box::new(x)), q)),
                Err(e) => Err(e),
            }
        } else if uid == 118 {
            match spec_parse_flag(b, p + 1) {
                Err(e) => Err(e),
                Ok((include_start, q1)) => {
                    let (start, q2) = spec_parse_line(b, q1);
                    match spec_parse_flag(b, q2) {
                        Err(e) => Err(e),
                        Ok((include_end, q3)) => {
                            let (end, q4) = spec_parse_line(b, q3);
                            proof {
                                lemma_line_end_bounds(b, q1);
                                lemma_line_end_bounds(b, q3);
                            }
                            match spec_parse_node(b, q4) {
                                Err(e) => Err(e),
                                Ok((NodeView::Cpe(wrapped), q5)) => Ok(
                                    (
                                        NodeView::VersionRange {
                                            wrapped,
                                            start,
                                            end,
                                            include_start,
                                            include_end,
                                        },
                                        q5,
                                    ),
                                ),
                                Ok((other, _)) => Err(ConfigFault::VersionRangeWrapsNonCpe(other)),
                            }
                        },
                    }
                },
            }
        } else {
            Err(ConfigFault::UnknownNodeUid(uid))
        }
    }
}

/// Reads a list: a count, then that many nodes.
pub open spec fn spec_parse_list(b: Seq<u8>, p: int) -> Result<(Seq<NodeView>, int), ConfigFault>
    decreases b.len() - p, 2int,
{
    if p < 0 || p > b.len() {
        Err(ConfigFault::ExpectedInteger)
    } else {
        match spec_parse_int(b, p) {
            Err(e) => Err(e),
            Ok((n, q)) => {
                proof {
                    lemma_digits_end_bounds(b, p);
                }
                spec_parse_nodes(b, q, n)
            },
        }
    }
}

/// Reads `n` nodes one after the other.
pub open spec fn spec_parse_nodes(b: Seq<u8>, p: int, n: nat) -> Result<
    (Seq<NodeView>, int),
    ConfigFault,
>
    decreases b.len() - p, 1int,
{
    if n == 0 {
        Ok((Seq::empty(), p))
    } else {
        match spec_parse_node(b, p) {
            Err(e) => Err(e),
            Ok((x, q)) => if p < q <= b.len() {
                match spec_parse_nodes(b, q, (n - 1) as nat) {
                    Err(e) => Err(e),
                    Ok((xs, q2)) => Ok((seq![x] + xs, q2)),
                }
            } else {
                Err(ConfigFault::UnexpectedEndOfData)
            },
        }
    }
}

/// What a stored configuration text reads as.
pub open spec fn spec_parse_configurations(s: Seq<char>) -> Result<Seq<NodeView>, ConfigFault> {
    match spec_parse_list(utf8(s), 0) {
        Ok((ns, _)) => Ok(ns),
        Err(e) => Err(e),
    }
}

/// Reading a node or a list that succeeds moves past at least one byte and stays within
/// the text.
pub proof fn lemma_parse_advances(b: Seq<u8>, p: int)
    requires
        0 <= p <= b.len(),
    ensures
        spec_parse_node(b, p) matches Ok((_, q)) ==> p < q <= b.len(),
        spec_parse_list(b, p) matches Ok((_, q)) ==> p < q <= b.len(),
    decreases b.len() - p,
{
    lemma_digits_end_bounds(b, p);
    if let Ok((n, q)) = spec_parse_int(b, p) {
        lemma_parse_nodes_advances(b, q, n);
    }
    if p < b.len() {
        let uid = b[p];
        lemma_line_end_bounds(b, p + 1);
        if uid == 67 {
            lemma_parse_advances(b, p + 1);
        } else if uid == 97 || uid == 111 {
            if p + 1 < b.len() {
                lemma_parse_advances(b, p + 2);
            }
        } else if uid == 33 {
            lemma_parse_advances(b, p + 1);
        } else if uid == 118 {
            if let Ok((_, q1)) = spec_parse_flag(b, p + 1) {
                lemma_line_end_bounds(b, q1);
                let (_, q2) = spec_parse_line(b, q1);
                if let Ok((_, q3)) = spec_parse_flag(b, q2) {
                    lemma_line_end_bounds(b, q3);
                    let (_, q4) = spec_parse_line(b, q3);
                    lemma_parse_advances(b, q4);
                }
            }
        }
    }
}

/// Reading a run of nodes that succeeds ends at or after where it starts, within the text.
pub proof fn lemma_parse_nodes_advances(b: Seq<u8>, p: int, n: nat)
    requires
        0 <= p <= b.len(),
    ensures
        spec_parse_nodes(b, p, n) matches Ok((_, q)) ==> p <= q <= b.len(),
    decreases b.len() - p, n,
{
    if n > 0 {
        if let Ok((_, q)) = spec_parse_node(b, p) {
            if p < q <= b.len() {
                lemma_parse_nodes_advances(b, q, (n - 1) as nat);
            }
        }
    }
}

proof fn lemma_concat_assoc(a: Seq<char>, b: Seq<char>, c: Seq<char>)
    ensures
        (a + b) + c == a + (b + c),
{
    assert((a + b) + c =~= a + (b + c));
}

fn push_debug_opt(out: &mut String, o: &Option<String>)
    ensures
        final(out)@ == old(out)@ + debug_opt(opt_view(*o)),
{
    let ghost start = out@;
    match o {
        Some(s) => {
            out.append("Some(");
            let t = str_debug(s.as_str());
            out.append(t.as_str());
            out.append(")");
        },
        None => out.append("None"),
    }
    assert(out@ =~= start + debug_opt(opt_view(*o)));
}

fn push_debug_bool(out: &mut String, b: bool)
    ensures
        final(out)@ == old(out)@ + debug_bool(b),
{
    if b {
        out.append("true");
    } else {
        out.append("false");
    }
}

fn push_debug_cpe(out: &mut String, c: &CPE)
    ensures
        final(out)@ == old(out)@ + debug_cpe(c@),
{
    let ghost start = out@;
    let ghost mut acc: Seq<char> = Seq::empty();
    assert(start + acc =~= start);
    out.append("CPE { part: ");
    proof {
        lemma_concat_assoc(start, acc, "CPE { part: "@);
        acc = acc + "CPE { part: "@;
    }
    push_debug_opt(out, &c.part);
    proof {
        lemma_concat_assoc(start, acc, debug_opt(c@.part));
        acc = acc + debug_opt(c@.part);
    }
    out.append(", vendor: ");
    proof {
        lemma_concat_assoc(start, acc, ", vendor: "@);
        acc = acc + ", vendor: "@;
    }
    push_debug_opt(out, &c.vendor);
    proof {
        lemma_concat_assoc(start, acc, debug_opt(c@.vendor));
        acc = acc + debug_opt(c@.vendor);
    }
    out.append(", product: ");
    proof {
        lemma_concat_assoc(start, acc, ", product: "@);
        acc = acc + ", product: "@;
    }
    push_debug_opt(out, &c.product);
    proof {
        lemma_concat_assoc(start, acc, debug_opt(c@.product));
        acc = acc + debug_opt(c@.product);
    }
    out.append(", version: ");
    proof {
        lemma_concat_assoc(start, acc, ", version: "@);
        acc = acc + ", version: "@;
    }
    push_debug_opt(out, &c.version);
    proof {
        lemma_concat_assoc(start, acc, debug_opt(c@.version));
        acc = acc + debug_opt(c@.version);
    }
    out.append(", update: ");
    proof {
        lemma_concat_assoc(start, acc, ", update: "@);
        acc = acc + ", update: "@;
    }
    push_debug_opt(out, &c.update);
    proof {
        lemma_concat_assoc(start, acc, debug_opt(c@.update));
        acc = acc + debug_opt(c@.update);
    }
    out.append(", edition: ");
    proof {
        lemma_concat_assoc(start, acc, ", edition: "@);
        acc = acc + ", edition: "@;
    }
    push_debug_opt(out, &c.edition);
    proof {
        lemma_concat_assoc(start, acc, debug_opt(c@.edition));
        acc = acc + debug_opt(c@.edition);
    }
    out.append(", lang: ");
    proof {
        lemma_concat_assoc(start, acc, ", lang: "@);
        acc = acc + ", lang: "@;
    }
    push_debug_opt(out, &c.lang);
    proof {
        lemma_concat_assoc(start, acc, debug_opt(c@.lang));
        acc = acc + debug_opt(c@.lang);
    }
    out.append(", sw_edition: ");
    proof {
        lemma_concat_assoc(start, acc, ", sw_edition: "@);
        acc = acc + ", sw_edition: "@;
    }
    push_debug_opt(out, &c.sw_edition);
    proof {
        lemma_concat_assoc(start, acc, debug_opt(c@.sw_edition));
        acc = acc + debug_opt(c@.sw_edition);
    }
    out.append(", target_sw: ");
    proof {
        lemma_concat_assoc(start, acc, ", target_sw: "@);
        acc = acc + ", target_sw: "@;
    }
    push_debug_opt(out, &c.target_sw);
    proof {
        lemma_concat_assoc(start, acc, debug_opt(c@.target_sw));
        acc = acc + debug_opt(c@.target_sw);
    }
    out.append(", target_hw: ");
    proof {
        lemma_concat_assoc(start, acc, ", target_hw: "@);
        acc = acc + ", target_hw: "@;
    }
    push_debug_opt(out, &c.target_hw);
    proof {
        lemma_concat_assoc(start, acc, debug_opt(c@.target_hw));
        acc = acc + debug_opt(c@.target_hw);
    }
    out.append(", other: ");
    proof {
        lemma_concat_assoc(start, acc, ", other: "@);
        acc = acc + ", other: "@;
    }
    push_debug_opt(out, &c.other);
    proof {
        lemma_concat_assoc(start, acc, debug_opt(c@.other));
        acc = acc + debug_opt(c@.other);
    }
    out.append(" }");
    proof {
        lemma_concat_assoc(start, acc, " }"@);
        acc = acc + " }"@;
    }
    assert(acc == debug_cpe(c@));
}

fn push_debug_nodes(out: &mut String, ns: &Vec<ConfigurationNode>)
    ensures
        final(out)@ == old(out)@ + debug_nodes_upto(nodes_view(ns@), ns@.len() as int),
    decreases ns, 1int,
{
    let ghost start = out@;
    let ghost vs = nodes_view(ns@);
    let mut i: usize = 0;
    while i < ns.len()
        invariant
            i <= ns@.len(),
            vs == nodes_view(ns@),
            out@ == start + debug_nodes_upto(vs, i as int),
        decreases ns.len() - i,
    {
        proof {
            assert(decreases_to!(ns@ => ns@[i as int]));
            assert(decreases_to!(*ns => ns@));
        }
        let ghost before = out@;
        if i > 0 {
            out.append(", ");
        }
        push_debug_node(out, &ns[i]);
        proof {
            assert(vs[i as int] == node_view(ns@[i as int]));
            assert(out@ =~= start + debug_nodes_upto(vs, i + 1));
        }
        i += 1;
    }
}

/// Appends the `Debug` text of a configuration tree.
#[verifier::rlimit(100)]
fn push_debug_node(out: &mut String, n: &ConfigurationNode)
    ensures
        final(out)@ == old(out)@ + debug_node(node_view(*n)),
    decreases n, 0int,
{
    let ghost start = out@;
    let ghost mut acc: Seq<char> = Seq::empty();
    assert(start + acc =~= start);
    match n {
        ConfigurationNode::Cpe(c) => {
            out.append("Cpe(");
            proof {
                lemma_concat_assoc(start, acc, "Cpe("@);
                acc = acc + "Cpe("@;
            }
            push_debug_cpe(out, c);
            proof {
                lemma_concat_assoc(start, acc, debug_cpe(c@));
                acc = acc + debug_cpe(c@);
            }
            out.append(")");
            proof {
                lemma_concat_assoc(start, acc, ")"@);
                acc = acc + ")"@;
            }
        },
        ConfigurationNode::And { children, negate } => {
            proof {
                assert(decreases_to!(*n => n->And_children));
            }
            out.append("And { children: [");
            proof {
                lemma_concat_assoc(start, acc, "And { children: ["@);
                acc = acc + "And { children: ["@;
            }
            push_debug_nodes(out, children);
            proof {
                lemma_concat_assoc(start, acc, debug_nodes_upto(nodes_view(children@), children@.len() as int));
                acc = acc + debug_nodes_upto(nodes_view(children@), children@.len() as int);
            }
            out.append("], negate: ");
            proof {
                lemma_concat_assoc(start, acc, "], negate: "@);
                acc = acc + "], negate: "@;
            }
            push_debug_bool(out, *negate);
            proof {
                lemma_concat_assoc(start, acc, debug_bool(*negate));
                acc = acc + debug_bool(*negate);
            }
            out.append(" }");
            proof {
                lemma_concat_assoc(start, acc, " }"@);
                acc = acc + " }"@;
            }
            assert(node_view(*n)->And_children =~= nodes_view(children@));
        },
        ConfigurationNode::Or { children, negate } => {
            proof {
                assert(decreases_to!(*n => n->Or_children));
            }
            out.append("Or { children: [");
            proof {
                lemma_concat_assoc(start, acc, "Or { children: ["@);
                acc = acc + "Or { children: ["@;
            }
            push_debug_nodes(out, children);
            proof {
                lemma_concat_assoc(start, acc, debug_nodes_upto(nodes_view(children@), children@.len() as int));
                acc = acc + debug_nodes_upto(nodes_view(children@), children@.len() as int);
            }
            out.append("], negate: ");
            proof {
                lemma_concat_assoc(start, acc, "], negate: "@);
                acc = acc + "], negate: "@;
            }
            push_debug_bool(out, *negate);
            proof {
                lemma_concat_assoc(start, acc, debug_bool(*negate));
                acc = acc + debug_bool(*negate);
            }
            out.append(" }");
            proof {
                lemma_concat_assoc(start, acc, " }"@);
                acc = acc + " }"@;
            }
            assert(node_view(*n)->Or_children =~= nodes_view(children@));
        },
        ConfigurationNode::Negate(b) => {
            out.append("Negate(");
            proof {
                lemma_concat_assoc(start, acc, "Negate("@);
                acc = acc + "Negate("@;
            }
            push_debug_node(out, b);
            proof {
                lemma_concat_assoc(start, acc, debug_node(node_view(**b)));
                acc = acc + debug_node(node_view(**b));
            }
            out.append(")");
            proof {
                lemma_concat_assoc(start, acc, ")"@);
                acc = acc + ")"@;
            }
        },
        ConfigurationNode::VersionRange { wrapped, start: lo, end: hi, include_start, include_end } => {
            out.append("VersionRange { wrapped: ");
            proof {
                lemma_concat_assoc(start, acc, "VersionRange { wrapped: "@);
                acc = acc + "VersionRange { wrapped: "@;
            }
            push_debug_cpe(out, wrapped);
            proof {
                lemma_concat_assoc(start, acc, debug_cpe(wrapped@));
                acc = acc + debug_cpe(wrapped@);
            }
            out.append(", start: ");
            proof {
                lemma_concat_assoc(start, acc, ", start: "@);
                acc = acc + ", start: "@;
            }
            push_debug_opt(out, lo);
            proof {
                lemma_concat_assoc(start, acc, debug_opt(opt_view(*lo)));
                acc = acc + debug_opt(opt_view(*lo));
            }
            out.append(", end: ");
            proof {
                lemma_concat_assoc(start, acc, ", end: "@);
                acc = acc + ", end: "@;
            }
            push_debug_opt(out, hi);
            proof {
                lemma_concat_assoc(start, acc, debug_opt(opt_view(*hi)));
                acc = acc + debug_opt(opt_view(*hi));
            }
            out.append(", include_start: ");
            proof {
                lemma_concat_assoc(start, acc, ", include_start: "@);
                acc = acc + ", include_start: "@;
            }
            push_debug_bool(out, *include_start);
            proof {
                lemma_concat_assoc(start, acc, debug_bool(*include_start));
                acc = acc + debug_bool(*include_start);
            }
            out.append(", include_end: ");
            proof {
                lemma_concat_assoc(start, acc, ", include_end: "@);
                acc = acc + ", include_end: "@;
            }
            push_debug_bool(out, *include_end);
            proof {
                lemma_concat_assoc(start, acc, debug_bool(*include_end));
                acc = acc + debug_bool(*include_end);
            }
            out.append(" }");
            proof {
                lemma_concat_assoc(start, acc, " }"@);
                acc = acc + " }"@;
            }
        },
    }
    assert(acc == debug_node(node_view(*n)));
}

/// Removes leading and trailing white space.
///
/// Calls `str::trim`, documented to return the string slice without leading and trailing
/// white space as the Unicode White_Space property defines it; the contract claims exactly
/// that, with the property listed in `is_white_space`.
#[verifier::external_body]
fn trim_str(s: &str) -> (r: &str)
    ensures
        r@ == trim(s@),
{
    s.trim()
}

fn parse_int(bytes: &[u8], pos: &mut usize) -> (r: Result<usize, String>)
    requires
        *old(pos) <= bytes@.len(),
    ensures
        *final(pos) <= bytes@.len(),
        match spec_parse_int(bytes@, *old(pos) as int) {
            Ok((n, q)) => r == Ok::<usize, String>(n as usize) && *final(pos) == q,
            Err(e) => r is Err && r->Err_0@ == fault_message(e),
        },
        (spec_parse_int(bytes@, *old(pos) as int) matches Err(ConfigFault::ExpectedInteger))
            ==> *final(pos) == *old(pos),
        (spec_parse_int(bytes@, *old(pos) as int) matches Err(ConfigFault::IntegerTooLarge))
            ==> *final(pos) == digits_end(bytes@, *old(pos) as int),
{
    let start = *pos;
    let ghost b = bytes@;
    let mut value: usize = 0;
    let mut overflow = false;
    assert(b.subrange(start as int, start as int) =~= Seq::<u8>::empty());
    while *pos < bytes.len() && bytes[*pos] >= 48 && bytes[*pos] <= 57
        invariant
            b == bytes@,
            start <= *pos <= b.len(),
            digits_end(b, start as int) == digits_end(b, *pos as int),
            !overflow ==> value == digits_value(b.subrange(start as int, *pos as int)),
            overflow ==> digits_value(b.subrange(start as int, *pos as int)) > usize::MAX,
        decreases bytes.len() - *pos,
    {
        let d = (bytes[*pos] - 48) as usize;
        let ghost old_seg = b.subrange(start as int, *pos as int);
        let ghost new_seg = b.subrange(start as int, *pos + 1);
        assert(new_seg.drop_last() =~= old_seg);
        assert(digits_value(new_seg) == digits_value(old_seg) * 10 + d);
        if !overflow {
            if value > (usize::MAX - d) / 10 {
                overflow = true;
                assert(value * 10 + d > usize::MAX) by (nonlinear_arith)
                    requires
                        value > (usize::MAX - d) / 10,
                        d <= 9,
                ;
            } else {
                assert(value * 10 + d <= usize::MAX) by (nonlinear_arith)
                    requires
                        value <= (usize::MAX - d) / 10,
                        d <= 9,
                ;
                value = value * 10 + d;
            }
        } else {
            assert(digits_value(old_seg) * 10 + d >= digits_value(old_seg)) by (nonlinear_arith);
        }
        *pos += 1;
    }
    if *pos == start {
        return Err("expected integer".to_owned());
    }
    if overflow {
        return Err("parse error: number too large to fit in target type".to_owned());
    }
    if *pos < bytes.len() && bytes[*pos] == 10 {
        *pos += 1;
    }
    Ok(value)
}

fn parse_bool(bytes: &[u8], pos: &mut usize) -> (r: Result<bool, String>)
    requires
        *old(pos) <= bytes@.len(),
    ensures
        *final(pos) <= bytes@.len(),
        match spec_parse_flag(bytes@, *old(pos) as int) {
            Ok((f, q)) => r == Ok::<bool, String>(f) && *final(pos) == q,
            Err(e) => r is Err && r->Err_0@ == fault_message(e),
        },
{
    if *pos >= bytes.len() {
        return Err("unexpected end".to_owned());
    }
    let b = bytes[*pos];
    *pos += 1;
    Ok(b == 73)
}

fn skip_line(bytes: &[u8], pos: &mut usize)
    requires
        *old(pos) <= bytes@.len(),
    ensures
        *final(pos) == line_end(bytes@, *old(pos) as int),
        *old(pos) <= *final(pos) <= bytes@.len(),
{
    let ghost start = *pos as int;
    while *pos < bytes.len() && bytes[*pos] != 10
        invariant
            start <= *pos <= bytes@.len(),
            line_end(bytes@, start) == line_end(bytes@, *pos as int),
        decreases bytes.len() - *pos,
    {
        *pos += 1;
    }
}

fn parse_line_str(bytes: &[u8], pos: &mut usize) -> (r: Option<String>)
    requires
        *old(pos) <= bytes@.len(),
    ensures
        *final(pos) <= bytes@.len(),
        opt_view(r) == spec_parse_line(bytes@, *old(pos) as int).0,
        *final(pos) == spec_parse_line(bytes@, *old(pos) as int).1,
{
    let start = *pos;
    skip_line(bytes, pos);
    let seg = &bytes[start..*pos];
    match str_from_utf8(seg) {
        Err(_) => None,
        Ok(s) => {
            proof {
                lemma_decode_valid(seg@, s@);
                if seg@.len() == 0 {
                    assert(decode_utf8(seg@) =~= Seq::<char>::empty());
                }
            }
            if *pos < bytes.len() {
                *pos += 1;
            }
            if s.is_empty() {
                None
            } else {
                Some(s.to_owned())
            }
        },
    }
}

fn parse_cpe_line(bytes: &[u8], pos: &mut usize) -> (r: Result<CPE, String>)
    requires
        *old(pos) <= bytes@.len(),
    ensures
        *final(pos) <= bytes@.len(),
        match spec_parse_cpe_line(bytes@, *old(pos) as int) {
            Ok((c, q)) => r is Ok && r->Ok_0@ == c && *final(pos) == q,
            Err(e) => r is Err && r->Err_0@ == fault_message(e),
        },
{
    let start = *pos;
    skip_line(bytes, pos);
    let seg = &bytes[start..*pos];
    match str_from_utf8(seg) {
        Err(m) => Err(m),
        Ok(line) => {
            proof {
                lemma_decode_valid(seg@, line@);
            }
            if *pos < bytes.len() {
                *pos += 1;
            }
            parse_cpe_fs(trim_str(line))
        },
    }
}

/// The views of a list of strings.
pub open spec fn strings_view(v: Seq<String>) -> Seq<Seq<char>> {
    v.map_values(|s: String| s@)
}

/// The pieces of a string between occurrences of `sep`.
fn split_chars(cs: &Vec<char>, sep: char) -> (parts: Vec<String>)
    ensures
        strings_view(parts@) == split_on(cs@, sep),
{
    let mut parts: Vec<String> = Vec::new();
    let mut cur: usize = 0;
    let mut i: usize = 0;
    assert(cs@.take(0) =~= Seq::<char>::empty());
    assert(strings_view(parts@).push(cs@.subrange(0, 0)) =~= seq![Seq::<char>::empty()]);
    while i < cs.len()
        invariant
            cur <= i <= cs@.len(),
            split_on(cs@.take(i as int), sep) == strings_view(parts@).push(cs@.subrange(cur as int, i as int)),
        decreases cs.len() - i,
    {
        let ghost before = cs@.take(i as int);
        assert(cs@.take(i + 1).drop_last() =~= before);
        assert(cs@.take(i + 1).last() == cs@[i as int]);
        if cs[i] == sep {
            let piece = string_of(cs, cur, i);
            let ghost before_parts = parts@;
            parts.push(piece);
            assert(strings_view(parts@) =~= strings_view(before_parts).push(piece@));
            cur = i + 1;
            assert(cs@.subrange(cur as int, i + 1) =~= Seq::<char>::empty());
        } else {
            assert(cs@.subrange(cur as int, i + 1) =~= cs@.subrange(cur as int, i as int).push(cs@[i as int]));
        }
        i += 1;
    }
    let last = string_of(cs, cur, cs.len());
    let ghost before_parts = parts@;
    parts.push(last);
    assert(cs@.take(cs@.len() as int) =~= cs@);
    assert(strings_view(parts@) =~= strings_view(before_parts).push(last@));
    parts
}

/// The CPE name of a CPE 2.3 formatted string; every attribute is present, `*` included.
pub fn parse_cpe_fs(fs: &str) -> (r: Result<CPE, String>)
    ensures
        match cpe_of_fs(fs@) {
            Some(c) => r is Ok && r->Ok_0@ == c,
            None => r is Err && r->Err_0@ == "invalid CPE formatted string: "@ + fs@,
        },
{
    let cs = chars_of(fs);
    let parts = split_chars(&cs, ':');
    proof {
        reveal_strlit("cpe");
        reveal_strlit("2.3");
        assert("cpe"@ =~= seq!['c', 'p', 'e']);
        assert("2.3"@ =~= seq!['2', '.', '3']);
        assert(forall|i: int| 0 <= i < parts@.len() ==> #[trigger] strings_view(parts@)[i] == parts@[i]@);
    }
    if parts.len() < 13 || !str_eq(parts[0].as_str(), "cpe") || !str_eq(parts[1].as_str(), "2.3") {
        let mut msg = String::new();
        msg.append("invalid CPE formatted string: ");
        msg.append(fs);
        return Err(msg);
    }
    Ok(
        CPE {
            part: field(&parts, 2),
            vendor: field(&parts, 3),
            product: field(&parts, 4),
            version: field(&parts, 5),
            update: field(&parts, 6),
            edition: field(&parts, 7),
            lang: field(&parts, 8),
            sw_edition: field(&parts, 9),
            target_sw: field(&parts, 10),
            target_hw: field(&parts, 11),
            other: field(&parts, 12),
        },
    )
}

/// The attribute at position `i` of a split formatted string; `*` past its end.
fn field(parts: &Vec<String>, i: usize) -> (r: Option<String>)
    ensures
        opt_view(r) == Some(if i < parts@.len() {
            parts@[i as int]@
        } else {
            seq!['*']
        }),
{
    if i < parts.len() {
        Some(parts[i].clone())
    } else {
        proof {
            reveal_strlit("*");
        }
        assert("*"@ =~= seq!['*']);
        Some("*".to_owned())
    }
}

fn parse_config_list(bytes: &[u8], pos: &mut usize) -> (r: Result<Vec<ConfigurationNode>, String>)
    requires
        *old(pos) <= bytes@.len(),
    ensures
        *final(pos) <= bytes@.len(),
        match spec_parse_list(bytes@, *old(pos) as int) {
            Ok((v, q)) => r is Ok && nodes_view(r->Ok_0@) == v && *final(pos) == q,
            Err(e) => r is Err && r->Err_0@ == fault_message(e),
        },
    decreases bytes@.len() - *old(pos), 2int,
{
    let ghost b = bytes@;
    let ghost p0 = *pos as int;
    proof {
        lemma_digits_end_bounds(b, p0);
    }
    let num = match parse_int(bytes, pos) {
        Ok(n) => n,
        Err(e) => return Err(e),
    };
    let mut nodes: Vec<ConfigurationNode> = Vec::new();
    let mut k: usize = 0;
    assert(nodes_view(nodes@) + Seq::<NodeView>::empty() =~= Seq::<NodeView>::empty());
    while k < num
        invariant
            b == bytes@,
            k <= num,
            p0 == *old(pos),
            p0 < *pos <= b.len(),
            spec_parse_list(b, p0) == (match spec_parse_nodes(b, *pos as int, (num - k) as nat) {
                Ok((xs, q)) => Ok((nodes_view(nodes@) + xs, q)),
                Err(e) => Err(e),
            }),
        decreases num - k,
    {
        let ghost pk = *pos as int;
        let ghost m = (num - k) as nat;
        let ghost before = nodes@;
        proof {
            lemma_parse_advances(b, pk);
        }
        let node = match parse_node(bytes, pos) {
            Ok(x) => x,
            Err(e) => {
                proof {
                    assert(m > 0);
                    let f = spec_parse_node(b, pk)->Err_0;
                    assert(spec_parse_node(b, pk) == Err::<(NodeView, int), ConfigFault>(f));
                    assert(spec_parse_nodes(b, pk, m) == Err::<(Seq<NodeView>, int), ConfigFault>(f));
                }
                return Err(e);
            },
        };
        nodes.push(node);
        k += 1;
        proof {
            assert(nodes_view(nodes@) =~= nodes_view(before) + seq![node_view(node)]);
            match spec_parse_nodes(b, *pos as int, (m - 1) as nat) {
                Ok((xs, q)) => {
                    assert(nodes_view(before) + (seq![node_view(node)] + xs) =~= nodes_view(nodes@) + xs);
                },
                Err(e) => {},
            }
        }
    }
    assert(nodes_view(nodes@) + Seq::<NodeView>::empty() =~= nodes_view(nodes@));
    Ok(nodes)
}

fn parse_node(bytes: &[u8], pos: &mut usize) -> (r: Result<ConfigurationNode, String>)
    requires
        *old(pos) <= bytes@.len(),
    ensures
        *final(pos) <= bytes@.len(),
        match spec_parse_node(bytes@, *old(pos) as int) {
            Ok((v, q)) => r is Ok && node_view(r->Ok_0) == v && *final(pos) == q,
            Err(e) => r is Err && r->Err_0@ == fault_message(e),
        },
    decreases bytes@.len() - *old(pos), 0int,
{
    let ghost b = bytes@;
    if *pos >= bytes.len() {
        return Err("unexpected end of config data".to_owned());
    }
    let uid = bytes[*pos];
    *pos += 1;
    if uid == 99 {
        match parse_cpe_line(bytes, pos) {
            Ok(c) => Ok(ConfigurationNode::Cpe(c)),
            Err(e) => Err(e),
        }
    } else if uid == 67 {
        let mut children = match parse_config_list(bytes, pos) {
            Ok(ch) => ch,
            Err(e) => return Err(e),
        };
        if children.len() == 1 {
            let ghost ch = children@;
            match children.pop() {
                Some(only) => {
                    assert(nodes_view(ch)[0] == node_view(only));
                    Ok(only)
                },
                None => Err("unexpected end of config data".to_owned()),
            }
        } else {
            let node = ConfigurationNode::Or { children, negate: false };
            assert(node_view(node)->Or_children =~= nodes_view(children@));
            Ok(node)
        }
    } else if uid == 97 || uid == 111 {
        let negate = match parse_bool(bytes, pos) {
            Ok(f) => f,
            Err(e) => return Err(e),
        };
        let children = match parse_config_list(bytes, pos) {
            Ok(ch) => ch,
            Err(e) => return Err(e),
        };
        if uid == 97 {
            let node = ConfigurationNode::And { children, negate };
            assert(node_view(node)->And_children =~= nodes_view(children@));
            Ok(node)
        } else {
            let node = ConfigurationNode::Or { children, negate };
            assert(node_view(node)->Or_children =~= nodes_view(children@));
            Ok(node)
        }
    } else if uid == 33 {
        match parse_node(bytes, pos) {
            Ok(x) => Ok(ConfigurationNode::Negate(Box::new(x))),
            Err(e) => Err(e),
        }
    } else if uid == 118 {
        let include_start = match parse_bool(bytes, pos) {
            Ok(f) => f,
            Err(e) => return Err(e),
        };
        let ghost q1 = *pos as int;
        proof {
            lemma_line_end_bounds(b, q1);
        }
        let start = parse_line_str(bytes, pos);
        let include_end = match parse_bool(bytes, pos) {
            Ok(f) => f,
            Err(e) => return Err(e),
        };
        let ghost q3 = *pos as int;
        proof {
            lemma_line_end_bounds(b, q3);
        }
        let end = parse_line_str(bytes, pos);
        match parse_node(bytes, pos) {
            Ok(ConfigurationNode::Cpe(wrapped)) => Ok(
                ConfigurationNode::VersionRange { wrapped, start, end, include_start, include_end },
            ),
            Ok(other) => {
                let mut msg = String::new();
                msg.append("VersionRange wraps non-CPE node: ");
                push_debug_node(&mut msg, &other);
                Err(msg)
            },
            Err(e) => Err(e),
        }
    } else {
        let mut msg = String::new();
        msg.append("unknown configuration node UID: ");
        let text = char_debug(uid as char);
        msg.append(text.as_str());
        Err(msg)
    }
}

/// Load configuration tree from serialized format
pub fn parse_configurations(s: &str) -> (r: Result<Configurations, String>)
    ensures
        match spec_parse_configurations(s@) {
            Ok(v) => r is Ok && nodes_view(r->Ok_0@) == v,
            Err(e) => r is Err && r->Err_0@ == fault_message(e),
        },
{
    let bytes = s.as_bytes();
    let mut pos: usize = 0;
    parse_config_list(bytes, &mut pos)
}

} // verus!
