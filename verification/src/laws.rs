//! Laws of the reducer and of the grammar, stated over the parse-tree
//! model and proved once and for all: where a property lands, how
//! repeated section headers merge, which of two writes to the same key
//! survives, and how a property line is trimmed.

use vstd::prelude::*;
use crate::grammar::{
    classify_line, doc_node_views, lemma_doc_node_views_wf, LineShape, NodeKind, NodeView, wf_node,
    wf_nodes,
};
use crate::inimap::{lookup, section_or_empty, SectionsMap};
use crate::reducer::{default_section, lemma_reduce_total, parse_result, reduce_rec};
use crate::text::{is_ws, lemma_trim_shape, trim};

verus! {

/// The section in force just before node `i` is consumed: the name
/// captured by the nearest preceding section header, or the initial
/// section when no header precedes.
pub open spec fn cur_at(ns: Seq<NodeView>, init: Seq<char>, i: int) -> Seq<char>
    decreases i,
{
    if i <= 0 {
        init
    } else if ns[i - 1].kind is Section {
        ns[i - 1].caps[0]
    } else {
        cur_at(ns, init, i - 1)
    }
}

/// The section in force after one node is consumed.
pub open spec fn next_cur(n: NodeView, cur: Seq<char>) -> Seq<char> {
    if n.kind is Section {
        n.caps[0]
    } else {
        cur
    }
}

/// Dropping the first node shifts `cur_at` by one.
proof fn lemma_cur_at_shift(ns: Seq<NodeView>, init: Seq<char>, i: int)
    requires
        0 <= i,
        i + 1 <= ns.len(),
    ensures
        cur_at(ns, init, i + 1) == cur_at(
            ns.subrange(1, ns.len() as int),
            next_cur(ns[0], init),
            i,
        ),
    decreases i,
{
    let rest = ns.subrange(1, ns.len() as int);
    let nc = next_cur(ns[0], init);
    if i == 0 {
        assert(cur_at(rest, nc, 0) == nc);
        assert(cur_at(ns, init, 1) == (if ns[0].kind is Section {
            ns[0].caps[0]
        } else {
            cur_at(ns, init, 0)
        }));
    } else {
        lemma_cur_at_shift(ns, init, i - 1);
        assert(rest[i - 1] == ns[i]);
        assert(cur_at(ns, init, i + 1) == (if ns[i].kind is Section {
            ns[i].caps[0]
        } else {
            cur_at(ns, init, i)
        }));
        assert(cur_at(rest, nc, i) == (if rest[i - 1].kind is Section {
            rest[i - 1].caps[0]
        } else {
            cur_at(rest, nc, i - 1)
        }));
    }
}

/// A key present in the accumulator stays present: the reducer only
/// ever inserts.
proof fn lemma_reduce_keeps_key(
    ns: Seq<NodeView>,
    cur: Seq<char>,
    acc: SectionsMap,
    s: Seq<char>,
    k: Seq<char>,
)
    requires
        wf_nodes(ns),
        lookup(acc, s, k) is Some,
    ensures
        reduce_rec(ns, cur, acc) matches Ok(m) && lookup(m, s, k) is Some,
    decreases ns.len(),
{
    lemma_reduce_total(ns, cur, acc);
    if ns.len() > 0 {
        assert(wf_node(ns[0]));
        let rest = ns.subrange(1, ns.len() as int);
        assert(forall|i: int| 0 <= i < rest.len() ==> rest[i] == ns[i + 1]);
        let node = ns[0];
        match node.kind {
            NodeKind::Section => lemma_reduce_keeps_key(rest, node.caps[0], acc, s, k),
            NodeKind::Property => {
                let acc2 = acc.insert(
                    cur,
                    section_or_empty(acc, cur).insert(node.caps[0], node.caps[1]),
                );
                assert(lookup(acc2, s, k) is Some);
                lemma_reduce_keeps_key(rest, cur, acc2, s, k);
            },
            NodeKind::Eoi => lemma_reduce_keeps_key(rest, cur, acc, s, k),
            NodeKind::Comment => {},
        }
    }
}

/// Whether some node of `ns` writes a property with key `k` while
/// section `s` is in force, starting from section `init`.
pub open spec fn writes_pair(
    ns: Seq<NodeView>,
    init: Seq<char>,
    s: Seq<char>,
    k: Seq<char>,
) -> bool {
    exists|j: int|
        0 <= j < ns.len() && (#[trigger] ns[j]).kind is Property && cur_at(ns, init, j) == s
            && ns[j].caps[0] == k
}

/// A value the reducer never writes over is kept unchanged.
proof fn lemma_reduce_keeps_value(
    ns: Seq<NodeView>,
    cur: Seq<char>,
    acc: SectionsMap,
    s: Seq<char>,
    k: Seq<char>,
)
    requires
        wf_nodes(ns),
        lookup(acc, s, k) is Some,
        !writes_pair(ns, cur, s, k),
    ensures
        reduce_rec(ns, cur, acc) matches Ok(m) && lookup(m, s, k) == lookup(acc, s, k),
    decreases ns.len(),
{
    lemma_reduce_total(ns, cur, acc);
    if ns.len() > 0 {
        assert(wf_node(ns[0]));
        let rest = ns.subrange(1, ns.len() as int);
        assert(forall|i: int| 0 <= i < rest.len() ==> rest[i] == ns[i + 1]);
        let node = ns[0];
        let nc = next_cur(node, cur);
        assert(!writes_pair(rest, nc, s, k)) by {
            if writes_pair(rest, nc, s, k) {
                let j = choose|j: int|
                    0 <= j < rest.len() && (#[trigger] rest[j]).kind is Property && cur_at(
                        rest,
                        nc,
                        j,
                    ) == s && rest[j].caps[0] == k;
                lemma_cur_at_shift(ns, cur, j);
                assert(ns[j + 1].kind is Property && cur_at(ns, cur, j + 1) == s && ns[j
                    + 1].caps[0] == k);
            }
        }
        match node.kind {
            NodeKind::Section => lemma_reduce_keeps_value(rest, node.caps[0], acc, s, k),
            NodeKind::Property => {
                assert(cur_at(ns, cur, 0) == cur);
                assert(!(node.caps[0] == k && cur == s));
                let acc2 = acc.insert(
                    cur,
                    section_or_empty(acc, cur).insert(node.caps[0], node.caps[1]),
                );
                assert(lookup(acc2, s, k) == lookup(acc, s, k));
                lemma_reduce_keeps_value(rest, cur, acc2, s, k);
            },
            NodeKind::Eoi => lemma_reduce_keeps_value(rest, cur, acc, s, k),
            NodeKind::Comment => {},
        }
    }
}

/// Every property write leaves its key present in the final mapping,
/// under the section in force at the write.
proof fn lemma_write_recorded(ns: Seq<NodeView>, cur: Seq<char>, acc: SectionsMap, i: int)
    requires
        wf_nodes(ns),
        0 <= i < ns.len(),
        ns[i].kind is Property,
    ensures
        reduce_rec(ns, cur, acc) matches Ok(m) && lookup(m, cur_at(ns, cur, i), ns[i].caps[0])
            is Some,
    decreases ns.len(),
{
    lemma_reduce_total(ns, cur, acc);
    assert(wf_node(ns[0]));
    let rest = ns.subrange(1, ns.len() as int);
    assert(forall|j: int| 0 <= j < rest.len() ==> rest[j] == ns[j + 1]);
    let node = ns[0];
    if i == 0 {
        let acc2 = acc.insert(cur, section_or_empty(acc, cur).insert(node.caps[0], node.caps[1]));
        assert(lookup(acc2, cur, node.caps[0]) is Some);
        lemma_reduce_keeps_key(rest, cur, acc2, cur, node.caps[0]);
    } else {
        lemma_cur_at_shift(ns, cur, i - 1);
        let nc = next_cur(node, cur);
        match node.kind {
            NodeKind::Section => lemma_write_recorded(rest, nc, acc, i - 1),
            NodeKind::Property => {
                let acc2 = acc.insert(
                    cur,
                    section_or_empty(acc, cur).insert(node.caps[0], node.caps[1]),
                );
                lemma_write_recorded(rest, nc, acc2, i - 1);
            },
            NodeKind::Eoi => lemma_write_recorded(rest, nc, acc, i - 1),
            NodeKind::Comment => {},
        }
    }
}

/// The last write to a section and key decides the stored value.
proof fn lemma_last_write(
    ns: Seq<NodeView>,
    cur: Seq<char>,
    acc: SectionsMap,
    i: int,
    s: Seq<char>,
    k: Seq<char>,
)
    requires
        wf_nodes(ns),
        0 <= i < ns.len(),
        ns[i].kind is Property,
        cur_at(ns, cur, i) == s,
        ns[i].caps[0] == k,
        forall|j: int|
            i < j < ns.len() && (#[trigger] ns[j]).kind is Property && cur_at(ns, cur, j) == s
                ==> ns[j].caps[0] != k,
    ensures
        reduce_rec(ns, cur, acc) matches Ok(m) && lookup(m, s, k) == Some(ns[i].caps[1]),
    decreases ns.len(),
{
    lemma_reduce_total(ns, cur, acc);
    assert(wf_node(ns[0]));
    let rest = ns.subrange(1, ns.len() as int);
    assert(forall|j: int| 0 <= j < rest.len() ==> rest[j] == ns[j + 1]);
    let node = ns[0];
    let nc = next_cur(node, cur);
    if i == 0 {
        let acc2 = acc.insert(cur, section_or_empty(acc, cur).insert(node.caps[0], node.caps[1]));
        assert(lookup(acc2, s, k) == Some(ns[0].caps[1]));
        assert(!writes_pair(rest, nc, s, k)) by {
            if writes_pair(rest, nc, s, k) {
                let j = choose|j: int|
                    0 <= j < rest.len() && (#[trigger] rest[j]).kind is Property && cur_at(
                        rest,
                        nc,
                        j,
                    ) == s && rest[j].caps[0] == k;
                lemma_cur_at_shift(ns, cur, j);
                assert(ns[j + 1].kind is Property && cur_at(ns, cur, j + 1) == s && ns[j
                    + 1].caps[0] == k);
            }
        }
        lemma_reduce_keeps_value(rest, nc, acc2, s, k);
    } else {
        lemma_cur_at_shift(ns, cur, i - 1);
        assert forall|j: int|
            i - 1 < j < rest.len() && (#[trigger] rest[j]).kind is Property && cur_at(rest, nc, j)
                == s implies rest[j].caps[0] != k by {
            lemma_cur_at_shift(ns, cur, j);
            assert(rest[j] == ns[j + 1]);
        }
        match node.kind {
            NodeKind::Section => lemma_last_write(rest, nc, acc, i - 1, s, k),
            NodeKind::Property => {
                let acc2 = acc.insert(
                    cur,
                    section_or_empty(acc, cur).insert(node.caps[0], node.caps[1]),
                );
                lemma_last_write(rest, nc, acc2, i - 1, s, k);
            },
            NodeKind::Eoi => lemma_last_write(rest, nc, acc, i - 1, s, k),
            NodeKind::Comment => {},
        }
    }
}

/// No section header before node `i` leaves the initial section in force.
proof fn lemma_cur_at_no_sections(ns: Seq<NodeView>, init: Seq<char>, i: int)
    requires
        0 <= i <= ns.len(),
        forall|j: int| 0 <= j < i ==> !((#[trigger] ns[j]).kind is Section),
    ensures
        cur_at(ns, init, i) == init,
    decreases i,
{
    if i > 0 {
        lemma_cur_at_no_sections(ns, init, i - 1);
    }
}

/// Between a section header and a later node with no header in
/// between, that header's name is the section in force.
proof fn lemma_cur_at_after_section(ns: Seq<NodeView>, init: Seq<char>, h: int, i: int)
    requires
        0 <= h < i <= ns.len(),
        ns[h].kind is Section,
        forall|j: int| h < j < i ==> !((#[trigger] ns[j]).kind is Section),
    ensures
        cur_at(ns, init, i) == ns[h].caps[0],
    decreases i,
{
    if i > h + 1 {
        lemma_cur_at_after_section(ns, init, h, i - 1);
    }
}

/// A property appearing before any section header lands in the
/// default section of the final mapping.
pub proof fn lemma_untagged_before_headers(ns: Seq<NodeView>, i: int)
    requires
        wf_nodes(ns),
        0 <= i < ns.len(),
        ns[i].kind is Property,
        forall|j: int| 0 <= j < i ==> !((#[trigger] ns[j]).kind is Section),
    ensures
        reduce_rec(ns, default_section(), Map::empty()) matches Ok(m) && m.contains_key(
            default_section(),
        ) && m[default_section()].contains_key(ns[i].caps[0]),
{
    lemma_cur_at_no_sections(ns, default_section(), i);
    lemma_write_recorded(ns, default_section(), Map::empty(), i);
}

/// Properties under two occurrences of the same section header merge
/// into the one mapping of that section.
pub proof fn lemma_repeated_sections_merge(ns: Seq<NodeView>, h1: int, p1: int, h2: int, p2: int)
    requires
        wf_nodes(ns),
        0 <= h1 < p1 < ns.len(),
        0 <= h2 < p2 < ns.len(),
        ns[h1].kind is Section,
        ns[h2].kind is Section,
        ns[h1].caps[0] == ns[h2].caps[0],
        ns[p1].kind is Property,
        ns[p2].kind is Property,
        forall|j: int| h1 < j < p1 ==> !((#[trigger] ns[j]).kind is Section),
        forall|j: int| h2 < j < p2 ==> !((#[trigger] ns[j]).kind is Section),
    ensures
        reduce_rec(ns, default_section(), Map::empty()) matches Ok(m) && m.contains_key(
            ns[h1].caps[0],
        ) && m[ns[h1].caps[0]].contains_key(ns[p1].caps[0]) && m[ns[h1].caps[0]].contains_key(
            ns[p2].caps[0],
        ),
{
    lemma_cur_at_after_section(ns, default_section(), h1, p1);
    lemma_cur_at_after_section(ns, default_section(), h2, p2);
    lemma_write_recorded(ns, default_section(), Map::empty(), p1);
    lemma_write_recorded(ns, default_section(), Map::empty(), p2);
}

/// Of several writes to the same key of the same section, the last
/// one's value is the one retained.
pub proof fn lemma_last_occurrence_wins(ns: Seq<NodeView>, i: int, s: Seq<char>, k: Seq<char>)
    requires
        wf_nodes(ns),
        0 <= i < ns.len(),
        ns[i].kind is Property,
        cur_at(ns, default_section(), i) == s,
        ns[i].caps[0] == k,
        forall|j: int|
            i < j < ns.len() && (#[trigger] ns[j]).kind is Property && cur_at(
                ns,
                default_section(),
                j,
            ) == s ==> ns[j].caps[0] != k,
    ensures
        reduce_rec(ns, default_section(), Map::empty()) matches Ok(m) && lookup(m, s, k) == Some(
            ns[i].caps[1],
        ),
{
    lemma_last_write(ns, default_section(), Map::empty(), i, s, k);
}

/// In any document, a property whose node no section header precedes
/// lands in the default section of the parsed mapping.
pub proof fn lemma_doc_untagged_before_headers(s: Seq<char>, i: int)
    requires
        0 <= i < doc_node_views(s).len(),
        doc_node_views(s)[i].kind is Property,
        forall|j: int| 0 <= j < i ==> !((#[trigger] doc_node_views(s)[j]).kind is Section),
    ensures
        parse_result(s).contains_key(default_section()),
        parse_result(s)[default_section()].contains_key(doc_node_views(s)[i].caps[0]),
{
    lemma_doc_node_views_wf(s);
    lemma_untagged_before_headers(doc_node_views(s), i);
}

/// In any document with a repeated section header, properties under
/// both occurrences merge into that one section of the parsed mapping.
pub proof fn lemma_doc_repeated_sections_merge(s: Seq<char>, h1: int, p1: int, h2: int, p2: int)
    requires
        0 <= h1 < p1 < doc_node_views(s).len(),
        0 <= h2 < p2 < doc_node_views(s).len(),
        doc_node_views(s)[h1].kind is Section,
        doc_node_views(s)[h2].kind is Section,
        doc_node_views(s)[h1].caps[0] == doc_node_views(s)[h2].caps[0],
        doc_node_views(s)[p1].kind is Property,
        doc_node_views(s)[p2].kind is Property,
        forall|j: int| h1 < j < p1 ==> !((#[trigger] doc_node_views(s)[j]).kind is Section),
        forall|j: int| h2 < j < p2 ==> !((#[trigger] doc_node_views(s)[j]).kind is Section),
    ensures
        parse_result(s).contains_key(doc_node_views(s)[h1].caps[0]),
        parse_result(s)[doc_node_views(s)[h1].caps[0]].contains_key(doc_node_views(s)[p1].caps[0]),
        parse_result(s)[doc_node_views(s)[h1].caps[0]].contains_key(doc_node_views(s)[p2].caps[0]),
{
    lemma_doc_node_views_wf(s);
    lemma_repeated_sections_merge(doc_node_views(s), h1, p1, h2, p2);
}

/// In any document, of several properties writing the same key while
/// the same section is in force, the last one's value is retained.
pub proof fn lemma_doc_last_occurrence_wins(s: Seq<char>, i: int, sec: Seq<char>, k: Seq<char>)
    requires
        0 <= i < doc_node_views(s).len(),
        doc_node_views(s)[i].kind is Property,
        cur_at(doc_node_views(s), default_section(), i) == sec,
        doc_node_views(s)[i].caps[0] == k,
        forall|j: int|
            i < j < doc_node_views(s).len() && (#[trigger] doc_node_views(s)[j]).kind is Property
                && cur_at(doc_node_views(s), default_section(), j) == sec ==> doc_node_views(
                s,
            )[j].caps[0] != k,
    ensures
        lookup(parse_result(s), sec, k) == Some(doc_node_views(s)[i].caps[1]),
{
    lemma_doc_node_views_wf(s);
    lemma_last_occurrence_wins(doc_node_views(s), i, sec, k);
}

/// A property line is trimmed exactly at the edges: the key is
/// nonempty with no surrounding whitespace, the value carries no
/// surrounding whitespace, and both are contiguous subranges of the
/// line, so interior whitespace is preserved character for character.
pub proof fn lemma_property_whitespace(line: Seq<char>, key: Seq<char>, value: Seq<char>)
    requires
        classify_line(line) == (LineShape::Property { key, value }),
    ensures
        key.len() > 0,
        !is_ws(key[0]),
        !is_ws(key[key.len() - 1]),
        value.len() > 0 ==> !is_ws(value[0]),
        value.len() > 0 ==> !is_ws(value[value.len() - 1]),
        exists|a: int, b: int| 0 <= a <= b <= line.len() && key == line.subrange(a, b),
        exists|a: int, b: int| 0 <= a <= b <= line.len() && value == line.subrange(a, b),
{
    let t = trim(line);
    lemma_trim_shape(line);
    let (a0, b0): (int, int) = choose|a0: int, b0: int|
        0 <= a0 <= b0 <= line.len() && trim(line) == line.subrange(a0, b0);
    let e = crate::text::find_char(t, '=');
    let ks = t.subrange(0, e);
    let vs = t.subrange(e + 1, t.len() as int);
    crate::text::lemma_find_char(t, '=');
    lemma_trim_shape(ks);
    lemma_trim_shape(vs);
    let (a1, b1): (int, int) = choose|a1: int, b1: int|
        0 <= a1 <= b1 <= ks.len() && trim(ks) == ks.subrange(a1, b1);
    let (a2, b2): (int, int) = choose|a2: int, b2: int|
        0 <= a2 <= b2 <= vs.len() && trim(vs) == vs.subrange(a2, b2);
    assert(ks.subrange(a1, b1) =~= line.subrange(a0 + a1, a0 + b1));
    assert(vs.subrange(a2, b2) =~= line.subrange(a0 + e + 1 + a2, a0 + e + 1 + b2));
    assert(0 <= a0 + a1 <= a0 + b1 <= line.len() && key == line.subrange(a0 + a1, a0 + b1));
    assert(0 <= a0 + e + 1 + a2 <= a0 + e + 1 + b2 <= line.len() && value == line.subrange(
        a0 + e + 1 + a2,
        a0 + e + 1 + b2,
    ));
}

} // verus!
