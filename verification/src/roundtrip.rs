//! Reading back stored configuration trees: what a read gives back of a write.
use vstd::prelude::*;
use vstd::utf8::*;
use crate::codec::{
    bound_text, cpe_of_fs, digits_end, digits_value, flag_char, is_digit, is_white_space, line_end,
    ser_list, ser_node, ser_nodes, spec_parse_configurations, spec_parse_cpe_line,
    spec_parse_flag, spec_parse_int, spec_parse_line, spec_parse_list, spec_parse_node,
    spec_parse_nodes, split_on, trim, trim_end, trim_start,
};
use crate::cve::{
    cpe_fields, cpe_matches, cpe_text, field_matches, field_text, join_fields, node_matches,
    CpeView, NodeView,
};
use crate::text::{decimal, digit_char, lemma_utf8_concat, utf8};
use crate::codec::ConfigFault;

verus! {

broadcast use vstd::seq::group_seq_axioms;

/// Whether a string lacks a character.
pub open spec fn lacks(s: Seq<char>, c: char) -> bool {
    forall|i: int| 0 <= i < s.len() ==> s[i] != c
}

/// The bytes of an ASCII string.
pub open spec fn ascii_bytes(s: Seq<char>) -> Seq<u8> {
    Seq::new(s.len(), |i: int| (s[i] as u32) as u8)
}

/// Whether every character of a string is ASCII.
pub open spec fn is_ascii_text(s: Seq<char>) -> bool {
    forall|i: int| 0 <= i < s.len() ==> (s[i] as u32) < 128
}

proof fn lemma_utf8_ascii(s: Seq<char>)
    requires
        is_ascii_text(s),
    ensures
        utf8(s) == ascii_bytes(s),
    decreases s.len(),
{
    if s.len() > 0 {
        lemma_utf8_ascii(s.drop_first());
        let u = s[0] as u32;
        assert(leading_byte_width_1(u) == u as u8) by (bit_vector)
            requires
                u < 128,
        ;
        assert(encode_scalar(u) == seq![u as u8]);
        assert(ascii_bytes(s) =~= seq![u as u8] + ascii_bytes(s.drop_first()));
        assert(utf8(s) =~= ascii_bytes(s));
    } else {
        assert(utf8(s) =~= ascii_bytes(s));
    }
}

proof fn lemma_scalar_no_newline(c: char)
    requires
        c != '\n',
    ensures
        forall|i: int| 0 <= i < encode_scalar(c as u32).len() ==> #[trigger] encode_scalar(c as u32)[i] != 10,
{
    let u = c as u32;
    if has_width_1_encoding(u) {
        assert(leading_byte_width_1(u) == u as u8) by (bit_vector)
            requires
                u <= 0x7f,
        ;
        assert(u != 10);
    } else if has_width_2_encoding(u) {
        assert(leading_byte_width_2(u) >= 0x80 && last_continuation_byte(u) >= 0x80) by (bit_vector);
    } else if has_width_3_encoding(u) {
        assert(leading_byte_width_3(u) >= 0x80 && second_last_continuation_byte(u) >= 0x80
            && last_continuation_byte(u) >= 0x80) by (bit_vector);
    } else {
        assert(leading_byte_width_4(u) >= 0x80 && third_last_continuation_byte(u) >= 0x80
            && second_last_continuation_byte(u) >= 0x80 && last_continuation_byte(u) >= 0x80)
            by (bit_vector);
    }
}

proof fn lemma_utf8_no_newline(s: Seq<char>)
    requires
        lacks(s, '\n'),
    ensures
        forall|i: int| 0 <= i < utf8(s).len() ==> #[trigger] utf8(s)[i] != 10,
    decreases s.len(),
{
    if s.len() > 0 {
        lemma_utf8_no_newline(s.drop_first());
        lemma_scalar_no_newline(s[0]);
        let e = encode_scalar(s[0] as u32);
        let r = utf8(s.drop_first());
        assert(utf8(s) == e + r);
        assert forall|i: int| 0 <= i < utf8(s).len() implies #[trigger] utf8(s)[i] != 10 by {
            if i < e.len() {
                assert(utf8(s)[i] == e[i]);
            } else {
                assert(utf8(s)[i] == r[i - e.len()]);
            }
        }
    }
}

/// Whether the stored text of a CPE attribute can be read back: no `:` and no newline.
pub open spec fn storable_field(o: Option<Seq<char>>) -> bool {
    lacks(field_text(o), ':') && lacks(field_text(o), '\n')
}

/// Whether a CPE name can be stored and read back: storable attributes, and no white space
/// at the end of the last one, which reading trims.
pub open spec fn storable_cpe(c: CpeView) -> bool {
    &&& forall|i: int| 0 <= i < 11 ==> #[trigger] storable_field(cpe_fields(c)[i])
    &&& field_text(c.other).len() > 0 ==> !is_white_space(field_text(c.other).last())
}

/// Whether a version bound can be stored and read back: absent, or a non-empty line.
pub open spec fn storable_bound(o: Option<Seq<char>>) -> bool {
    match o {
        None => true,
        Some(s) => s.len() > 0 && lacks(s, '\n'),
    }
}

/// Whether a configuration tree can be stored and read back.
pub open spec fn storable(n: NodeView) -> bool
    decreases n,
{
    match n {
        NodeView::Cpe(c) => storable_cpe(c),
        NodeView::And { children, negate } => children.len() <= usize::MAX && forall|i: int|
            0 <= i < children.len() ==> storable(#[trigger] children[i]),
        NodeView::Or { children, negate } => children.len() <= usize::MAX && forall|i: int|
            0 <= i < children.len() ==> storable(#[trigger] children[i]),
        NodeView::Negate(b) => storable(*b),
        NodeView::VersionRange { wrapped, start, end, include_start, include_end } =>
            storable_cpe(wrapped) && storable_bound(start) && storable_bound(end),
    }
}

/// Whether a list of configuration trees can be stored and read back.
pub open spec fn storable_list(ns: Seq<NodeView>) -> bool {
    ns.len() <= usize::MAX && forall|i: int| 0 <= i < ns.len() ==> storable(#[trigger] ns[i])
}

/// A CPE name as it reads back from storage: absent attributes become `*`.
pub open spec fn stored_cpe(c: CpeView) -> CpeView {
    CpeView {
        part: Some(field_text(c.part)),
        vendor: Some(field_text(c.vendor)),
        product: Some(field_text(c.product)),
        version: Some(field_text(c.version)),
        update: Some(field_text(c.update)),
        edition: Some(field_text(c.edition)),
        lang: Some(field_text(c.lang)),
        sw_edition: Some(field_text(c.sw_edition)),
        target_sw: Some(field_text(c.target_sw)),
        target_hw: Some(field_text(c.target_hw)),
        other: Some(field_text(c.other)),
    }
}

/// A configuration tree as it reads back from storage.
pub open spec fn stored_node(n: NodeView) -> NodeView
    decreases n,
{
    match n {
        NodeView::Cpe(c) => NodeView::Cpe(stored_cpe(c)),
        NodeView::And { children, negate } => NodeView::And {
            children: Seq::new(
                children.len(),
                |i: int|
                    if 0 <= i < children.len() {
                        stored_node(children[i])
                    } else {
                        NodeView::Negate(Box::new(NodeView::Cpe(stored_cpe(arbitrary()))))
                    },
            ),
            negate,
        },
        NodeView::Or { children, negate } => NodeView::Or {
            children: Seq::new(
                children.len(),
                |i: int|
                    if 0 <= i < children.len() {
                        stored_node(children[i])
                    } else {
                        NodeView::Negate(Box::new(NodeView::Cpe(stored_cpe(arbitrary()))))
                    },
            ),
            negate,
        },
        NodeView::Negate(b) => NodeView::Negate(Box::new(stored_node(*b))),
        NodeView::VersionRange { wrapped, start, end, include_start, include_end } =>
            NodeView::VersionRange {
            wrapped: stored_cpe(wrapped),
            start,
            end,
            include_start,
            include_end,
        },
    }
}

/// A list of configuration trees as it reads back from storage.
pub open spec fn stored_list(ns: Seq<NodeView>) -> Seq<NodeView> {
    Seq::new(ns.len(), |i: int| stored_node(ns[i]))
}

proof fn lemma_decimal(k: nat)
    ensures
        decimal(k).len() >= 1,
        is_ascii_text(decimal(k)),
        lacks(decimal(k), '\n'),
        forall|i: int| 0 <= i < decimal(k).len() ==> is_digit(#[trigger] ascii_bytes(decimal(k))[i]),
        digits_value(ascii_bytes(decimal(k))) == k,
    decreases k,
{
    let d = k % 10;
    let c = digit_char(d);
    let du: u32 = (48 + d) as u32;
    assert(c as u32 == du);
    assert((du as u8) == du) by (bit_vector)
        requires
            du < 58,
    ;
    if k < 10 {
        assert(decimal(k) == seq![c]);
        let a = ascii_bytes(decimal(k));
        assert(a.len() == 1);
        assert(a[0] == (c as u32) as u8);
        assert(a.drop_last() =~= Seq::<u8>::empty());
        assert(digits_value(a) == digits_value(a.drop_last()) * 10 + (a.last() - 48) as nat);
    } else {
        lemma_decimal(k / 10);
        let x = decimal(k / 10);
        assert(decimal(k) == x.push(c));
        let a = ascii_bytes(decimal(k));
        assert(a.drop_last() =~= ascii_bytes(x));
        assert(a.last() == (c as u32) as u8);
        assert(a.last() == 48 + d);
        assert(digits_value(a) == digits_value(a.drop_last()) * 10 + (a.last() - 48) as nat);
        assert(k == (k / 10) * 10 + d);
        assert forall|i: int| 0 <= i < decimal(k).len() implies is_digit(#[trigger] ascii_bytes(decimal(k))[i]) by {
            if i < x.len() {
                assert(a[i] == ascii_bytes(x)[i]);
            }
        }
    }
}

/// Whether `s` stands in `b` at position `p`.
pub open spec fn holds_at(b: Seq<u8>, p: int, s: Seq<u8>) -> bool {
    0 <= p && p + s.len() <= b.len() && b.subrange(p, p + s.len()) == s
}

proof fn lemma_holds_split(b: Seq<u8>, p: int, s1: Seq<u8>, s2: Seq<u8>)
    requires
        holds_at(b, p, s1 + s2),
    ensures
        holds_at(b, p, s1),
        holds_at(b, p + s1.len(), s2),
{
    let whole = b.subrange(p, p + s1.len() + s2.len());
    assert(whole == s1 + s2);
    assert(b.subrange(p, p + s1.len()) =~= whole.subrange(0, s1.len() as int));
    assert(whole.subrange(0, s1.len() as int) =~= s1);
    assert(b.subrange(p + s1.len(), p + s1.len() + s2.len()) =~= whole.subrange(
        s1.len() as int,
        (s1.len() + s2.len()) as int,
    ));
    assert(whole.subrange(s1.len() as int, (s1.len() + s2.len()) as int) =~= s2);
}

proof fn lemma_holds_index(b: Seq<u8>, p: int, s: Seq<u8>, i: int)
    requires
        holds_at(b, p, s),
        0 <= i < s.len(),
    ensures
        b[p + i] == s[i],
{
    assert(b.subrange(p, p + s.len())[i] == b[p + i]);
}

proof fn lemma_line_end_at(b: Seq<u8>, q: int, m: int)
    requires
        0 <= q,
        0 <= m,
        q + m < b.len(),
        b[q + m] == 10,
        forall|i: int| q <= i < q + m ==> b[i] != 10,
    ensures
        line_end(b, q) == q + m,
    decreases m,
{
    if m > 0 {
        lemma_line_end_at(b, q + 1, m - 1);
    }
}

proof fn lemma_digits_end_at(b: Seq<u8>, q: int, m: int)
    requires
        0 <= q,
        0 <= m,
        q + m < b.len(),
        !is_digit(b[q + m]),
        forall|i: int| q <= i < q + m ==> is_digit(b[i]),
    ensures
        digits_end(b, q) == q + m,
    decreases m,
{
    if m > 0 {
        lemma_digits_end_at(b, q + 1, m - 1);
    }
}

/// Reading a count back from its stored form.
proof fn lemma_parse_int_stored(b: Seq<u8>, p: int, k: nat)
    requires
        k <= usize::MAX,
        holds_at(b, p, utf8(decimal(k) + seq!['\n'])),
    ensures
        spec_parse_int(b, p) == Ok::<(nat, int), ConfigFault>((k, p + utf8(decimal(k) + seq!['\n']).len())),
{
    lemma_decimal(k);
    let d = decimal(k);
    lemma_utf8_concat(d, seq!['\n']);
    lemma_utf8_ascii(d);
    lemma_utf8_ascii(seq!['\n']);
    let db = ascii_bytes(d);
    let nl = ascii_bytes(seq!['\n']);
    assert(nl =~= seq![10u8]);
    lemma_holds_split(b, p, db, nl);
    lemma_holds_index(b, p + db.len(), nl, 0);
    assert forall|i: int| p <= i < p + db.len() implies is_digit(b[i]) by {
        lemma_holds_index(b, p, db, i - p);
    }
    lemma_digits_end_at(b, p, db.len() as int);
    assert(b.subrange(p, p + db.len()) == db);
}

proof fn lemma_split_push_sep(s: Seq<char>, sep: char)
    ensures
        split_on(s.push(sep), sep) == split_on(s, sep).push(Seq::empty()),
{
    assert(s.push(sep).drop_last() =~= s);
}

proof fn lemma_split_len(s: Seq<char>, sep: char)
    ensures
        split_on(s, sep).len() >= 1,
    decreases s.len(),
{
    if s.len() > 0 {
        lemma_split_len(s.drop_last(), sep);
    }
}

proof fn lemma_split_append(s: Seq<char>, t: Seq<char>, sep: char)
    requires
        lacks(t, sep),
    ensures
        split_on(s + t, sep) == split_on(s, sep).update(
            split_on(s, sep).len() - 1,
            split_on(s, sep).last() + t,
        ),
    decreases t.len(),
{
    lemma_split_len(s, sep);
    let r = split_on(s, sep);
    if t.len() == 0 {
        assert(s + t =~= s);
        assert(r.last() + t =~= r.last());
        assert(r.update(r.len() - 1, r.last() + t) =~= r);
    } else {
        let t0 = t.drop_last();
        assert(lacks(t0, sep));
        lemma_split_append(s, t0, sep);
        assert((s + t).drop_last() =~= s + t0);
        assert((s + t).last() == t.last());
        let r0 = split_on(s + t0, sep);
        assert(r0.last() == r.last() + t0);
        assert(r0.last().push(t.last()) =~= r.last() + t);
        assert(split_on(s + t, sep) =~= r.update(r.len() - 1, r.last() + t));
    }
}

/// The prefix of every CPE 2.3 formatted string.
pub open spec fn cpe_prefix() -> Seq<char> {
    seq!['c', 'p', 'e', ':', '2', '.', '3', ':']
}

proof fn lemma_split_prefix()
    ensures
        split_on(cpe_prefix(), ':') == seq![seq!['c', 'p', 'e'], seq!['2', '.', '3'], Seq::<char>::empty()],
{
    let e = Seq::<char>::empty();
    let a = seq!['c', 'p', 'e'];
    let t = seq!['2', '.', '3'];
    assert(lacks(a, ':'));
    assert(lacks(t, ':'));
    lemma_split_append(e, a, ':');
    assert(e + a =~= a);
    assert(split_on(e, ':') == seq![e]);
    assert(split_on(a, ':') =~= seq![a]);
    lemma_split_push_sep(a, ':');
    lemma_split_append(a.push(':'), t, ':');
    assert(split_on(a.push(':') + t, ':') =~= seq![a, t]);
    lemma_split_push_sep(a.push(':') + t, ':');
    assert((a.push(':') + t).push(':') =~= cpe_prefix());
    assert(split_on(cpe_prefix(), ':') =~= seq![a, t, e]);
}

/// The pieces that a CPE formatted string splits into after the prefix.
pub open spec fn field_texts(c: CpeView, k: int) -> Seq<Seq<char>> {
    Seq::new(k as nat, |i: int| field_text(cpe_fields(c)[i]))
}

proof fn lemma_join_take_step(fs: Seq<Option<Seq<char>>>, n: int)
    requires
        2 <= n <= fs.len(),
    ensures
        join_fields(fs.take(n)) == join_fields(fs.take(n - 1)).push(':') + field_text(fs[n - 1]),
{
    assert(fs.take(n).drop_last() =~= fs.take(n - 1));
}

/// Whether no attribute text of a CPE name holds a `:`.
pub open spec fn colon_free_cpe(c: CpeView) -> bool {
    forall|i: int| 0 <= i < 11 ==> lacks(#[trigger] field_text(cpe_fields(c)[i]), ':')
}

proof fn lemma_split_cpe_text_upto(c: CpeView, k: int)
    requires
        colon_free_cpe(c),
        1 <= k <= 11,
    ensures
        split_on(cpe_prefix() + join_fields(cpe_fields(c).take(k)), ':') == seq![
            seq!['c', 'p', 'e'],
            seq!['2', '.', '3'],
        ] + field_texts(c, k),
        storable_cpe(c) ==> lacks(join_fields(cpe_fields(c).take(k)), '\n'),
    decreases k,
{
    let fs = cpe_fields(c);
    let head = seq![seq!['c', 'p', 'e'], seq!['2', '.', '3']];
    assert(lacks(field_text(fs[k - 1]), ':'));
    if storable_cpe(c) {
        assert(storable_field(fs[k - 1]));
    }
    if k == 1 {
        assert(fs.take(1).drop_first().len() == 0);
        assert(join_fields(fs.take(1)) == field_text(fs[0]));
        lemma_split_prefix();
        lemma_split_append(cpe_prefix(), field_text(fs[0]), ':');
        assert(Seq::<char>::empty() + field_text(fs[0]) =~= field_text(fs[0]));
        assert(split_on(cpe_prefix() + field_text(fs[0]), ':') =~= head + field_texts(c, 1));
    } else {
        lemma_split_cpe_text_upto(c, k - 1);
        lemma_join_take_step(fs, k);
        let j = join_fields(fs.take(k - 1));
        let f = field_text(fs[k - 1]);
        assert(cpe_prefix() + (j.push(':') + f) =~= (cpe_prefix() + j).push(':') + f);
        lemma_split_push_sep(cpe_prefix() + j, ':');
        lemma_split_append((cpe_prefix() + j).push(':'), f, ':');
        assert(Seq::<char>::empty() + f =~= f);
        assert(split_on(cpe_prefix() + join_fields(fs.take(k)), ':') =~= head + field_texts(c, k));
        if storable_cpe(c) {
            assert forall|i: int| 0 <= i < join_fields(fs.take(k)).len() implies join_fields(
                fs.take(k),
            )[i] != '\n' by {
                let jj = j.push(':') + f;
                assert(jj == join_fields(fs.take(k)));
                if i < j.len() {
                    assert(jj[i] == j[i]);
                } else if i > j.len() {
                    assert(jj[i] == f[i - j.len() - 1]);
                }
            }
        }
    }
}

/// A CPE name none of whose attributes holds a `:` is read back from its formatted string,
/// with absent attributes as `*`.
pub proof fn law_cpe_text_reads_back(c: CpeView)
    requires
        colon_free_cpe(c),
    ensures
        cpe_of_fs(cpe_text(c)) == Some(stored_cpe(c)),
{
    let fs = cpe_fields(c);
    lemma_split_cpe_text_upto(c, 11);
    assert(fs.take(11) =~= fs);
    assert(cpe_prefix() == seq!['c', 'p', 'e', ':', '2', '.', '3', ':']);
    let t = cpe_text(c);
    let parts = split_on(t, ':');
    assert(parts[2] == field_text(c.part));
    assert(parts[12] == field_text(c.other));
    assert(cpe_of_fs(t) == Some(stored_cpe(c)));
}

/// A CPE name whose attributes are all present and free of `:` is read back from its
/// formatted string as exactly the same name.
pub proof fn law_complete_cpe_text_reads_back(c: CpeView)
    requires
        colon_free_cpe(c),
        cpe_complete(c),
    ensures
        cpe_of_fs(cpe_text(c)) == Some(c),
{
    law_cpe_text_reads_back(c);
    lemma_stored_cpe_complete(c);
}

/// A CPE name is read back from its formatted string, with absent attributes as `*`.
pub proof fn law_cpe_text_roundtrip(c: CpeView)
    requires
        storable_cpe(c),
    ensures
        cpe_of_fs(cpe_text(c)) == Some(stored_cpe(c)),
        lacks(cpe_text(c), '\n'),
        trim(cpe_text(c)) == cpe_text(c),
{
    let fs = cpe_fields(c);
    assert forall|i: int| 0 <= i < 11 implies lacks(#[trigger] field_text(cpe_fields(c)[i]), ':') by {
        assert(storable_field(cpe_fields(c)[i]));
    }
    law_cpe_text_reads_back(c);
    lemma_split_cpe_text_upto(c, 11);
    assert(fs.take(11) =~= fs);
    assert(cpe_prefix() == seq!['c', 'p', 'e', ':', '2', '.', '3', ':']);
    let t = cpe_text(c);
    let parts = split_on(t, ':');
    assert(parts[2] == field_text(c.part));
    assert(parts[12] == field_text(c.other));
    assert(cpe_of_fs(t) == Some(stored_cpe(c)));
    let j = join_fields(fs);
    assert forall|i: int| 0 <= i < t.len() implies t[i] != '\n' by {
        if i >= 8 {
            assert(t[i] == j[i - 8]);
        }
    }
    assert(t[0] == 'c');
    assert(trim_start(t) == t);
    lemma_join_take_step(fs, 11);
    assert(fs.take(10) == fs.drop_last());
    let f = field_text(fs[10]);
    let j10 = join_fields(fs.take(10));
    assert(j == j10.push(':') + f);
    assert(t == cpe_prefix() + (j10.push(':') + f));
    if f.len() > 0 {
        assert(t.last() == f.last());
    } else {
        assert(t.last() == ':');
    }
    assert(trim_end(t) == t);
}

proof fn lemma_holds_chars(b: Seq<u8>, p: int, x: Seq<char>, y: Seq<char>)
    requires
        holds_at(b, p, utf8(x + y)),
    ensures
        holds_at(b, p, utf8(x)),
        holds_at(b, p + utf8(x).len(), utf8(y)),
        utf8(x + y).len() == utf8(x).len() + utf8(y).len(),
{
    lemma_utf8_concat(x, y);
    lemma_holds_split(b, p, utf8(x), utf8(y));
}

proof fn lemma_holds_ascii(b: Seq<u8>, p: int, c: char)
    requires
        (c as u32) < 128,
        holds_at(b, p, utf8(seq![c])),
    ensures
        b[p] == (c as u32) as u8,
        utf8(seq![c]).len() == 1,
{
    lemma_utf8_ascii(seq![c]);
    assert(ascii_bytes(seq![c]) =~= seq![(c as u32) as u8]);
    lemma_holds_index(b, p, utf8(seq![c]), 0);
}

proof fn lemma_line_stored(b: Seq<u8>, p: int, t: Seq<char>)
    requires
        lacks(t, '\n'),
        holds_at(b, p, utf8(t + seq!['\n'])),
    ensures
        line_end(b, p) == p + utf8(t).len(),
        b.subrange(p, p + utf8(t).len()) == utf8(t),
        valid_utf8(utf8(t)),
        decode_utf8(utf8(t)) == t,
        utf8(t + seq!['\n']).len() == utf8(t).len() + 1,
        p + utf8(t).len() < b.len(),
{
    lemma_holds_chars(b, p, t, seq!['\n']);
    lemma_holds_ascii(b, p + utf8(t).len(), '\n');
    lemma_utf8_no_newline(t);
    assert forall|i: int| p <= i < p + utf8(t).len() implies b[i] != 10 by {
        lemma_holds_index(b, p, utf8(t), i - p);
    }
    lemma_line_end_at(b, p, utf8(t).len() as int);
    encode_utf8_valid_utf8(t);
    encode_utf8_decode_utf8(t);
}

proof fn lemma_cpe_line_stored(b: Seq<u8>, p: int, c: CpeView)
    requires
        storable_cpe(c),
        holds_at(b, p, utf8(cpe_text(c) + seq!['\n'])),
    ensures
        spec_parse_cpe_line(b, p) == Ok::<(CpeView, int), ConfigFault>(
            (stored_cpe(c), p + utf8(cpe_text(c) + seq!['\n']).len()),
        ),
{
    law_cpe_text_roundtrip(c);
    lemma_line_stored(b, p, cpe_text(c));
}

proof fn lemma_bound_stored(b: Seq<u8>, p: int, o: Option<Seq<char>>)
    requires
        storable_bound(o),
        holds_at(b, p, utf8(bound_text(o) + seq!['\n'])),
    ensures
        spec_parse_line(b, p) == (o, p + utf8(bound_text(o) + seq!['\n']).len()),
{
    let t = bound_text(o);
    lemma_line_stored(b, p, t);
    if o is None {
        assert(utf8(t).len() == 0);
        assert(b.subrange(p, p) =~= Seq::<u8>::empty());
        assert(valid_utf8(Seq::<u8>::empty()));
    } else {
        assert(t.len() > 0);
        assert(utf8(t).len() > 0) by {
            assert(decode_utf8(Seq::<u8>::empty()) =~= Seq::<char>::empty());
        }
    }
}

proof fn lemma_flag_stored(b: Seq<u8>, p: int, f: bool)
    requires
        holds_at(b, p, utf8(seq![flag_char(f)])),
    ensures
        spec_parse_flag(b, p) == Ok::<(bool, int), ConfigFault>((f, p + 1)),
        utf8(seq![flag_char(f)]).len() == 1,
{
    lemma_holds_ascii(b, p, flag_char(f));
    assert(('I' as u32) as u8 == 73);
    assert(('O' as u32) as u8 == 79);
}

proof fn lemma_ser_nodes_cons(ns: Seq<NodeView>)
    requires
        ns.len() >= 1,
    ensures
        ser_nodes(ns) == ser_node(ns[0]) + ser_nodes(ns.drop_first()),
    decreases ns.len(),
{
    if ns.len() == 1 {
        assert(ns.drop_last().len() == 0);
        assert(ns.drop_first().len() == 0);
        assert(ser_nodes(ns.drop_last()) == Seq::<char>::empty());
        assert(ser_nodes(ns.drop_first()) == Seq::<char>::empty());
        assert(ser_nodes(ns) == ser_nodes(ns.drop_last()) + ser_node(ns.last()));
        assert(ns.last() == ns[0]);
        assert(ser_nodes(ns) =~= ser_node(ns[0]) + ser_nodes(ns.drop_first()));
    } else {
        lemma_ser_nodes_cons(ns.drop_last());
        assert(ser_nodes(ns) == ser_nodes(ns.drop_last()) + ser_node(ns.last()));
        assert(ser_nodes(ns.drop_first()) == ser_nodes(ns.drop_first().drop_last()) + ser_node(
            ns.drop_first().last(),
        ));
        assert(ns.drop_last()[0] == ns[0]);
        assert(ns.drop_last().drop_first() =~= ns.drop_first().drop_last());
        assert(ns.drop_first().last() == ns.last());
        assert(ser_nodes(ns) =~= ser_node(ns[0]) + ser_nodes(ns.drop_first()));
    }
}

proof fn lemma_ser_node_nonempty(n: NodeView)
    ensures
        utf8(ser_node(n)).len() >= 1,
{
    let s = ser_node(n);
    assert(s.len() >= 1);
    lemma_utf8_concat(seq![s[0]], s.drop_first());
    assert(seq![s[0]] + s.drop_first() =~= s);
    assert(utf8(seq![s[0]]).len() >= 1);
}

proof fn lemma_cpe_node_stored(b: Seq<u8>, p: int, c: CpeView)
    requires
        storable_cpe(c),
        holds_at(b, p, utf8(ser_node(NodeView::Cpe(c)))),
    ensures
        spec_parse_node(b, p) == Ok::<(NodeView, int), ConfigFault>(
            (NodeView::Cpe(stored_cpe(c)), p + utf8(ser_node(NodeView::Cpe(c))).len()),
        ),
{
    let n = NodeView::Cpe(c);
    let t = cpe_text(c) + seq!['\n'];
    assert(ser_node(n) =~= seq!['c'] + t);
    lemma_holds_chars(b, p, seq!['c'], t);
    lemma_holds_ascii(b, p, 'c');
    assert(('c' as u32) as u8 == 99);
    lemma_cpe_line_stored(b, p + 1, c);
}

proof fn lemma_version_range_stored(b: Seq<u8>, p: int, n: NodeView)
    requires
        n is VersionRange,
        storable(n),
        holds_at(b, p, utf8(ser_node(n))),
    ensures
        spec_parse_node(b, p) == Ok::<(NodeView, int), ConfigFault>(
            (stored_node(n), p + utf8(ser_node(n)).len()),
        ),
{
    if let NodeView::VersionRange { wrapped, start, end, include_start, include_end } = n {
            let f1 = seq![flag_char(include_start)];
            let l1 = bound_text(start) + seq!['\n'];
            let f2 = seq![flag_char(include_end)];
            let l2 = bound_text(end) + seq!['\n'];
            let cl = cpe_text(wrapped) + seq!['\n'];
            let r5 = seq!['c'] + cl;
            let r4 = l2 + r5;
            let r3 = f2 + r4;
            let r2 = l1 + r3;
            let r1 = f1 + r2;
            assert(ser_node(n) =~= seq!['v'] + r1);
            lemma_holds_chars(b, p, seq!['v'], r1);
            lemma_holds_ascii(b, p, 'v');
            assert(('v' as u32) as u8 == 118);
            lemma_holds_chars(b, p + 1, f1, r2);
            lemma_flag_stored(b, p + 1, include_start);
            let q1 = p + 2;
            lemma_holds_chars(b, q1, l1, r3);
            lemma_bound_stored(b, q1, start);
            let q2 = q1 + utf8(l1).len();
            lemma_holds_chars(b, q2, f2, r4);
            lemma_flag_stored(b, q2, include_end);
            let q3 = q2 + 1;
            lemma_holds_chars(b, q3, l2, r5);
            lemma_bound_stored(b, q3, end);
            let q4 = q3 + utf8(l2).len();
            lemma_holds_chars(b, q4, seq!['c'], cl);
            lemma_holds_ascii(b, q4, 'c');
            assert(('c' as u32) as u8 == 99);
            lemma_cpe_line_stored(b, q4 + 1, wrapped);
            let q5 = q4 + 1 + utf8(cl).len();
            assert(spec_parse_node(b, q4) == Ok::<(NodeView, int), ConfigFault>(
                (NodeView::Cpe(stored_cpe(wrapped)), q5),
            ));
            assert(q5 == p + utf8(ser_node(n)).len());
            lemma_version_range_parse(b, p, n, q2, q4, q5);
    }
}

proof fn lemma_version_range_parse(b: Seq<u8>, p: int, n: NodeView, q2: int, q4: int, q5: int)
    requires
        n is VersionRange,
        0 <= p < b.len(),
        b[p] == 118,
        spec_parse_flag(b, p + 1) == Ok::<(bool, int), ConfigFault>((n->include_start, p + 2)),
        spec_parse_line(b, p + 2) == (n->start, q2),
        spec_parse_flag(b, q2) == Ok::<(bool, int), ConfigFault>((n->include_end, q2 + 1)),
        spec_parse_line(b, q2 + 1) == (n->end, q4),
        spec_parse_node(b, q4) == Ok::<(NodeView, int), ConfigFault>(
            (NodeView::Cpe(stored_cpe(n->wrapped)), q5),
        ),
    ensures
        spec_parse_node(b, p) == Ok::<(NodeView, int), ConfigFault>((stored_node(n), q5)),
{
}


/// A stored node reads back as its stored form.
proof fn lemma_node_stored(b: Seq<u8>, p: int, n: NodeView)
    requires
        storable(n),
        holds_at(b, p, utf8(ser_node(n))),
    ensures
        spec_parse_node(b, p) == Ok::<(NodeView, int), ConfigFault>(
            (stored_node(n), p + utf8(ser_node(n)).len()),
        ),
    decreases n,
{
    match n {
        NodeView::Cpe(c) => {
            lemma_cpe_node_stored(b, p, c);
        },
        NodeView::And { children, negate } | NodeView::Or { children, negate } => {
            let tag = if n is And { 'a' } else { 'o' };
            let d = decimal(children.len()) + seq!['\n'];
            let rest = d + ser_nodes(children);
            assert(ser_node(n) =~= seq![tag] + (seq![flag_char(negate)] + rest));
            lemma_holds_chars(b, p, seq![tag], seq![flag_char(negate)] + rest);
            lemma_holds_ascii(b, p, tag);
            assert(('a' as u32) as u8 == 97);
            assert(('o' as u32) as u8 == 111);
            lemma_holds_chars(b, p + 1, seq![flag_char(negate)], rest);
            lemma_flag_stored(b, p + 1, negate);
            lemma_holds_chars(b, p + 2, d, ser_nodes(children));
            lemma_parse_int_stored(b, p + 2, children.len());
            let q = p + 2 + utf8(d).len();
            assert(decreases_to!(n => children));
            lemma_nodes_stored(b, q, children);
            let sc = Seq::new(children.len(), |i: int| stored_node(children[i]));
            assert(spec_parse_list(b, p + 2) == Ok::<(Seq<NodeView>, int), ConfigFault>(
                (sc, q + utf8(ser_nodes(children)).len()),
            ));
            if n is And {
                assert(stored_node(n)->And_children =~= sc);
            } else {
                assert(stored_node(n)->Or_children =~= sc);
            }
        },
        NodeView::Negate(inner) => {
            assert(ser_node(n) =~= seq!['!'] + ser_node(*inner));
            lemma_holds_chars(b, p, seq!['!'], ser_node(*inner));
            lemma_holds_ascii(b, p, '!');
            assert(('!' as u32) as u8 == 33);
            lemma_node_stored(b, p + 1, *inner);
        },
        NodeView::VersionRange { wrapped, start, end, include_start, include_end } => {
            lemma_version_range_stored(b, p, n);
        },
    }
}

/// Stored nodes, one after the other, read back as their stored forms.
proof fn lemma_nodes_stored(b: Seq<u8>, p: int, ns: Seq<NodeView>)
    requires
        forall|i: int| 0 <= i < ns.len() ==> storable(#[trigger] ns[i]),
        holds_at(b, p, utf8(ser_nodes(ns))),
    ensures
        spec_parse_nodes(b, p, ns.len()) == Ok::<(Seq<NodeView>, int), ConfigFault>(
            (Seq::new(ns.len(), |i: int| stored_node(ns[i])), p + utf8(ser_nodes(ns)).len()),
        ),
    decreases ns,
{
    if ns.len() == 0 {
        assert(Seq::new(ns.len(), |i: int| stored_node(ns[i])) =~= Seq::<NodeView>::empty());
        assert(ser_nodes(ns) =~= Seq::<char>::empty());
    } else {
        lemma_ser_nodes_cons(ns);
        let rest = ns.drop_first();
        lemma_holds_chars(b, p, ser_node(ns[0]), ser_nodes(rest));
        lemma_node_stored(b, p, ns[0]);
        lemma_ser_node_nonempty(ns[0]);
        let p1 = p + utf8(ser_node(ns[0])).len();
        assert forall|i: int| 0 <= i < rest.len() implies storable(#[trigger] rest[i]) by {
            assert(rest[i] == ns[i + 1]);
        }
        lemma_nodes_stored(b, p1, rest);
        let xs = Seq::new(rest.len(), |i: int| stored_node(rest[i]));
        assert(seq![stored_node(ns[0])] + xs =~= Seq::new(ns.len(), |i: int| stored_node(ns[i])));
    }
}


/// A configuration list that can be stored reads back from its stored text as the same
/// trees, with absent CPE attributes turned into `*`.
pub proof fn law_configurations_roundtrip(ns: Seq<NodeView>)
    requires
        storable_list(ns),
    ensures
        spec_parse_configurations(ser_list(ns)) == Ok::<Seq<NodeView>, ConfigFault>(stored_list(ns)),
{
    let head = decimal(ns.len()) + seq!['\n'];
    let b = utf8(ser_list(ns));
    assert(ser_list(ns) == head + ser_nodes(ns));
    assert(b.subrange(0, b.len() as int) =~= b);
    assert(holds_at(b, 0, utf8(head + ser_nodes(ns))));
    lemma_holds_chars(b, 0, head, ser_nodes(ns));
    lemma_parse_int_stored(b, 0, ns.len());
    lemma_nodes_stored(b, utf8(head).len() as int, ns);
    assert(Seq::new(ns.len(), |i: int| stored_node(ns[i])) =~= stored_list(ns));
}

/// Reading a CPE name back from storage does not change which names it matches.
pub proof fn law_stored_cpe_matches_same(a: CpeView, c: CpeView)
    ensures
        cpe_matches(stored_cpe(a), c) == cpe_matches(a, c),
{
    let fs = cpe_fields(stored_cpe(a));
    let fa = cpe_fields(a);
    let fc = cpe_fields(c);
    assert forall|i: int| 0 <= i < 11 implies #[trigger] field_matches(fs[i], fc[i]) == field_matches(fa[i], fc[i]) by {
        assert(fs[i] == Some(field_text(fa[i])));
    }
    if cpe_matches(a, c) {
        assert forall|i: int| 0 <= i < 11 implies #[trigger] field_matches(fs[i], fc[i]) by {
            assert(field_matches(fa[i], fc[i]));
        }
    }
    if cpe_matches(stored_cpe(a), c) {
        assert forall|i: int| 0 <= i < 11 implies #[trigger] field_matches(fa[i], fc[i]) by {
            assert(field_matches(fs[i], fc[i]));
        }
    }
}

/// Reading a configuration tree back from storage does not change which CPE names it
/// applies to.
pub proof fn law_stored_node_matches_same(n: NodeView, c: CpeView)
    ensures
        node_matches(stored_node(n), c) == node_matches(n, c),
    decreases n,
{
    match n {
        NodeView::Cpe(x) => {
            law_stored_cpe_matches_same(x, c);
        },
        NodeView::And { children, negate } => {
            let sc = stored_node(n)->And_children;
            assert forall|i: int| 0 <= i < children.len() implies node_matches(#[trigger] sc[i], c)
                == node_matches(children[i], c) by {
                law_stored_node_matches_same(children[i], c);
            }
            if forall|i: int| 0 <= i < children.len() ==> node_matches(#[trigger] children[i], c) {
                assert forall|i: int| 0 <= i < sc.len() implies node_matches(#[trigger] sc[i], c) by {
                    assert(node_matches(children[i], c));
                }
            }
            if forall|i: int| 0 <= i < sc.len() ==> node_matches(#[trigger] sc[i], c) {
                assert forall|i: int| 0 <= i < children.len() implies node_matches(#[trigger] children[i], c) by {
                    assert(node_matches(sc[i], c));
                }
            }
        },
        NodeView::Or { children, negate } => {
            let sc = stored_node(n)->Or_children;
            assert forall|i: int| 0 <= i < children.len() implies node_matches(#[trigger] sc[i], c)
                == node_matches(children[i], c) by {
                law_stored_node_matches_same(children[i], c);
            }
            if exists|i: int| 0 <= i < children.len() && node_matches(#[trigger] children[i], c) {
                let i = choose|i: int| 0 <= i < children.len() && node_matches(#[trigger] children[i], c);
                assert(node_matches(sc[i], c));
            }
            if exists|i: int| 0 <= i < sc.len() && node_matches(#[trigger] sc[i], c) {
                let i = choose|i: int| 0 <= i < sc.len() && node_matches(#[trigger] sc[i], c);
                assert(node_matches(children[i], c));
            }
        },
        NodeView::Negate(inner) => {
            law_stored_node_matches_same(*inner, c);
        },
        NodeView::VersionRange { wrapped, start, end, include_start, include_end } => {
            law_stored_cpe_matches_same(wrapped, c);
        },
    }
}

/// Matching of CPE names is symmetric.
pub proof fn law_cpe_matches_symmetric(a: CpeView, b: CpeView)
    ensures
        cpe_matches(a, b) == cpe_matches(b, a),
{
    let fa = cpe_fields(a);
    let fb = cpe_fields(b);
    assert forall|i: int| 0 <= i < 11 implies #[trigger] field_matches(fa[i], fb[i]) == field_matches(fb[i], fa[i]) by {
    }
    if cpe_matches(a, b) {
        assert forall|i: int| 0 <= i < 11 implies #[trigger] field_matches(fb[i], fa[i]) by {
            assert(field_matches(fa[i], fb[i]));
        }
    }
    if cpe_matches(b, a) {
        assert forall|i: int| 0 <= i < 11 implies #[trigger] field_matches(fa[i], fb[i]) by {
            assert(field_matches(fb[i], fa[i]));
        }
    }
}

/// A CPE name whose attributes are all absent matches every CPE name.
pub proof fn law_wildcard_cpe_matches_all(a: CpeView, c: CpeView)
    requires
        forall|i: int| 0 <= i < 11 ==> #[trigger] cpe_fields(a)[i] is None,
    ensures
        cpe_matches(a, c),
{
    assert forall|i: int| 0 <= i < 11 implies #[trigger] field_matches(cpe_fields(a)[i], cpe_fields(c)[i]) by {
        assert(cpe_fields(a)[i] is None);
    }
}

/// Whether an attribute is a plain value: present, and neither `*` (any) nor `-` (not
/// applicable).
pub open spec fn plain_value(o: Option<Seq<char>>) -> bool {
    match o {
        Some(x) => x != seq!['*'] && x != seq!['-'],
        None => false,
    }
}

/// Two CPE names whose attributes are all plain values match exactly when they are the same
/// name.
pub proof fn law_plain_cpes_match_iff_equal(a: CpeView, c: CpeView)
    requires
        forall|i: int| 0 <= i < 11 ==> plain_value(#[trigger] cpe_fields(a)[i]),
        forall|i: int| 0 <= i < 11 ==> plain_value(#[trigger] cpe_fields(c)[i]),
    ensures
        cpe_matches(a, c) <==> a == c,
{
    let fa = cpe_fields(a);
    let fc = cpe_fields(c);
    if cpe_matches(a, c) {
        assert forall|i: int| 0 <= i < 11 implies fa[i] == fc[i] by {
            assert(field_matches(fa[i], fc[i]));
            assert(plain_value(fa[i]));
            assert(plain_value(fc[i]));
        }
        assert(fa[0] == fc[0] && fa[1] == fc[1] && fa[2] == fc[2] && fa[3] == fc[3]);
        assert(fa[4] == fc[4] && fa[5] == fc[5] && fa[6] == fc[6] && fa[7] == fc[7]);
        assert(fa[8] == fc[8] && fa[9] == fc[9] && fa[10] == fc[10]);
    }
    if a == c {
        assert forall|i: int| 0 <= i < 11 implies #[trigger] field_matches(fa[i], fc[i]) by {
            assert(plain_value(fa[i]));
        }
    }
}

/// An attribute that is `-` (not applicable) in either name keeps the two names from
/// matching unless the other name leaves that attribute open (absent or `*`).
pub proof fn law_not_applicable_attribute(a: CpeView, c: CpeView, i: int)
    requires
        0 <= i < 11,
        cpe_fields(a)[i] == Some(seq!['-']) || cpe_fields(c)[i] == Some(seq!['-']),
        cpe_fields(a)[i] is Some && cpe_fields(a)[i] != Some(seq!['*']),
        cpe_fields(c)[i] is Some && cpe_fields(c)[i] != Some(seq!['*']),
    ensures
        !cpe_matches(a, c),
{
    assert(!field_matches(cpe_fields(a)[i], cpe_fields(c)[i]));
}

/// Whether every attribute of a CPE name is present.
pub open spec fn cpe_complete(c: CpeView) -> bool {
    forall|i: int| 0 <= i < 11 ==> #[trigger] cpe_fields(c)[i] is Some
}

/// Whether every CPE name in a configuration tree has all its attributes.
pub open spec fn complete(n: NodeView) -> bool
    decreases n,
{
    match n {
        NodeView::Cpe(c) => cpe_complete(c),
        NodeView::And { children, negate } => forall|i: int|
            0 <= i < children.len() ==> complete(#[trigger] children[i]),
        NodeView::Or { children, negate } => forall|i: int|
            0 <= i < children.len() ==> complete(#[trigger] children[i]),
        NodeView::Negate(b) => complete(*b),
        NodeView::VersionRange { wrapped, start, end, include_start, include_end } => cpe_complete(
            wrapped,
        ),
    }
}

proof fn lemma_stored_cpe_complete(c: CpeView)
    requires
        cpe_complete(c),
    ensures
        stored_cpe(c) == c,
{
    let f = cpe_fields(c);
    assert(f[0] is Some && f[1] is Some && f[2] is Some && f[3] is Some && f[4] is Some);
    assert(f[5] is Some && f[6] is Some && f[7] is Some && f[8] is Some && f[9] is Some);
    assert(f[10] is Some);
}

proof fn lemma_stored_node_complete(n: NodeView)
    requires
        complete(n),
    ensures
        stored_node(n) == n,
    decreases n,
{
    match n {
        NodeView::Cpe(c) => {
            lemma_stored_cpe_complete(c);
        },
        NodeView::And { children, negate } => {
            assert forall|i: int| 0 <= i < children.len() implies stored_node(#[trigger] children[i])
                == children[i] by {
                lemma_stored_node_complete(children[i]);
            }
            assert(stored_node(n)->And_children =~= children);
        },
        NodeView::Or { children, negate } => {
            assert forall|i: int| 0 <= i < children.len() implies stored_node(#[trigger] children[i])
                == children[i] by {
                lemma_stored_node_complete(children[i]);
            }
            assert(stored_node(n)->Or_children =~= children);
        },
        NodeView::Negate(inner) => {
            lemma_stored_node_complete(*inner);
        },
        NodeView::VersionRange { wrapped, start, end, include_start, include_end } => {
            lemma_stored_cpe_complete(wrapped);
        },
    }
}

/// A storable configuration list whose CPE names have all their attributes reads back from
/// its stored text as exactly the same trees.
pub proof fn law_complete_configurations_roundtrip(ns: Seq<NodeView>)
    requires
        storable_list(ns),
        forall|i: int| 0 <= i < ns.len() ==> complete(#[trigger] ns[i]),
    ensures
        spec_parse_configurations(ser_list(ns)) == Ok::<Seq<NodeView>, ConfigFault>(ns),
{
    law_configurations_roundtrip(ns);
    assert forall|i: int| 0 <= i < ns.len() implies stored_node(#[trigger] ns[i]) == ns[i] by {
        lemma_stored_node_complete(ns[i]);
    }
    assert(stored_list(ns) =~= ns);
}


/// Pieces joined by a separator character.
pub open spec fn join_on(parts: Seq<Seq<char>>, sep: char) -> Seq<char>
    decreases parts.len(),
{
    if parts.len() == 0 {
        Seq::empty()
    } else if parts.len() == 1 {
        parts[0]
    } else {
        join_on(parts.drop_last(), sep).push(sep) + parts.last()
    }
}

proof fn lemma_join_split(s: Seq<char>, sep: char)
    ensures
        join_on(split_on(s, sep), sep) == s,
    decreases s.len(),
{
    if s.len() == 0 {
        assert(split_on(s, sep) =~= seq![Seq::<char>::empty()]);
        assert(s =~= Seq::<char>::empty());
    } else {
        let r = split_on(s.drop_last(), sep);
        lemma_split_len(s.drop_last(), sep);
        lemma_join_split(s.drop_last(), sep);
        let c = s.last();
        assert(s.drop_last().push(c) =~= s);
        if c == sep {
            let t = r.push(Seq::<char>::empty());
            assert(t.drop_last() =~= r);
            assert(join_on(t, sep) == join_on(r, sep).push(sep) + t.last());
            assert(join_on(t, sep) =~= s);
        } else {
            let k = r.len() - 1;
            let t = r.update(k, r.last().push(c));
            if r.len() == 1 {
                assert(join_on(t, sep) =~= s);
            } else {
                assert(t.drop_last() =~= r.drop_last());
                assert(join_on(t, sep) == join_on(t.drop_last(), sep).push(sep) + t.last());
                assert(join_on(r, sep) == join_on(r.drop_last(), sep).push(sep) + r.last());
                assert(join_on(t, sep) =~= join_on(r, sep).push(c));
            }
        }
    }
}

proof fn lemma_join_append(a: Seq<Seq<char>>, b: Seq<Seq<char>>, sep: char)
    requires
        a.len() > 0,
        b.len() > 0,
    ensures
        join_on(a + b, sep) == join_on(a, sep).push(sep) + join_on(b, sep),
    decreases b.len(),
{
    if b.len() == 1 {
        assert((a + b).drop_last() =~= a);
        assert((a + b).last() == b[0]);
    } else {
        lemma_join_append(a, b.drop_last(), sep);
        assert((a + b).drop_last() =~= a + b.drop_last());
        assert((a + b).last() == b.last());
        let x = join_on(a, sep).push(sep);
        assert(join_on(a + b, sep) == join_on(a + b.drop_last(), sep).push(sep) + b.last());
        assert(join_on(b, sep) == join_on(b.drop_last(), sep).push(sep) + b.last());
        assert((x + join_on(b.drop_last(), sep)).push(sep) + b.last() =~= x + (join_on(
            b.drop_last(),
            sep,
        ).push(sep) + b.last()));
    }
}

proof fn lemma_join_fields_on(fs: Seq<Option<Seq<char>>>)
    ensures
        join_fields(fs) == join_on(fs.map_values(|f: Option<Seq<char>>| field_text(f)), ':'),
    decreases fs.len(),
{
    let m = fs.map_values(|f: Option<Seq<char>>| field_text(f));
    if fs.len() >= 2 {
        lemma_join_fields_on(fs.drop_last());
        assert(m.drop_last() =~= fs.drop_last().map_values(|f: Option<Seq<char>>| field_text(f)));
    }
}

/// A CPE 2.3 formatted string of exactly thirteen `:`-separated pieces is written back
/// unchanged from the CPE name it denotes.
pub proof fn law_cpe_fs_rejoin(fs: Seq<char>)
    requires
        split_on(fs, ':').len() == 13,
        cpe_of_fs(fs) is Some,
    ensures
        cpe_text(cpe_of_fs(fs)->0) == fs,
{
    let parts = split_on(fs, ':');
    let c = cpe_of_fs(fs)->0;
    lemma_join_split(fs, ':');
    let head = parts.subrange(0, 2);
    let rest = parts.subrange(2, 13);
    assert(parts =~= head + rest);
    lemma_join_append(head, rest, ':');
    assert(head.drop_last() =~= seq![parts[0]]);
    assert(join_on(head, ':') == join_on(head.drop_last(), ':').push(':') + head.last());
    assert(parts[0] == seq!['c', 'p', 'e']);
    assert(parts[1] == seq!['2', '.', '3']);
    assert(join_on(head, ':').push(':') =~= seq!['c', 'p', 'e', ':', '2', '.', '3', ':']);
    let fields = cpe_fields(c);
    lemma_join_fields_on(fields);
    assert(fields.map_values(|f: Option<Seq<char>>| field_text(f)) =~= rest);
}

} // verus!
