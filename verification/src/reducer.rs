//! The tree reducer: walks the parse tree in document order, tracks the
//! current section, and accumulates every property into the output
//! mapping. Properties seen before any section header are filed under
//! the default section.

use vstd::prelude::*;
use crate::InIParseError;
use crate::grammar::{
    doc_node_views, lemma_doc_node_views_wf, nodes_view, Node, NodeKind, NodeView, wf_node,
    wf_nodes,
};
use crate::inimap::{section_or_empty, IniMap, SectionsMap};

verus! {

/// The reserved name of the section that holds properties appearing
/// before any section header.
pub open spec fn default_section() -> Seq<char> {
    "untagged"@
}

/// One step per node: a section header changes the current section, a
/// property writes into the current section's bucket (creating it on
/// first use, overwriting an earlier value of the same key), the
/// end-of-input marker does nothing. A node without its captures fails
/// with `Finished`; a node kind the tokenizer never emits fails with
/// `Unreachable`.
pub open spec fn reduce_rec(ns: Seq<NodeView>, cur: Seq<char>, acc: SectionsMap) -> Result<
    SectionsMap,
    InIParseError,
>
    decreases ns.len(),
{
    if ns.len() == 0 {
        Ok(acc)
    } else {
        let node = ns[0];
        let rest = ns.subrange(1, ns.len() as int);
        match node.kind {
            NodeKind::Section => if node.caps.len() >= 1 {
                reduce_rec(rest, node.caps[0], acc)
            } else {
                Err(InIParseError::Finished)
            },
            NodeKind::Property => if node.caps.len() >= 2 {
                reduce_rec(
                    rest,
                    cur,
                    acc.insert(cur, section_or_empty(acc, cur).insert(node.caps[0], node.caps[1])),
                )
            } else {
                Err(InIParseError::Finished)
            },
            NodeKind::Eoi => reduce_rec(rest, cur, acc),
            NodeKind::Comment => Err(InIParseError::Unreachable),
        }
    }
}

/// On a well-formed parse tree the reduction always succeeds.
pub proof fn lemma_reduce_total(ns: Seq<NodeView>, cur: Seq<char>, acc: SectionsMap)
    requires
        wf_nodes(ns),
    ensures
        reduce_rec(ns, cur, acc) is Ok,
    decreases ns.len(),
{
    if ns.len() > 0 {
        assert(wf_node(ns[0]));
        let rest = ns.subrange(1, ns.len() as int);
        assert(forall|i: int| 0 <= i < rest.len() ==> rest[i] == ns[i + 1]);
        let node = ns[0];
        match node.kind {
            NodeKind::Section => lemma_reduce_total(rest, node.caps[0], acc),
            NodeKind::Property => lemma_reduce_total(
                rest,
                cur,
                acc.insert(cur, section_or_empty(acc, cur).insert(node.caps[0], node.caps[1])),
            ),
            NodeKind::Eoi => lemma_reduce_total(rest, cur, acc),
            NodeKind::Comment => {},
        }
    }
}

/// The mapping a conforming document denotes: its parse tree reduced
/// from an empty mapping with the default section current.
pub open spec fn parse_result(s: Seq<char>) -> SectionsMap {
    reduce_rec(doc_node_views(s), default_section(), Map::empty())->Ok_0
}

/// Reducing the parse tree of any document succeeds.
pub proof fn lemma_parse_result_ok(s: Seq<char>)
    ensures
        reduce_rec(doc_node_views(s), default_section(), Map::empty()) is Ok,
{
    lemma_doc_node_views_wf(s);
    lemma_reduce_total(doc_node_views(s), default_section(), Map::empty());
}

/// Walk a parse tree and build the output mapping, exactly as
/// [`reduce_rec`] describes.
pub fn reduce_nodes(nodes: &Vec<Node>) -> (r: Result<IniMap, InIParseError>)
    ensures
        match r {
            Ok(m) => reduce_rec(nodes_view(nodes@), default_section(), Map::empty()) matches Ok(sm)
                && m@ == sm,
            Err(e) => reduce_rec(nodes_view(nodes@), default_section(), Map::empty()) matches Err(
                e2,
            ) && e == e2,
        },
{
    let ghost full = nodes_view(nodes@);
    let mut out = IniMap::new();
    let mut current = "untagged".to_owned();
    let n = nodes.len();
    let mut i: usize = 0;
    proof {
        assert(full.subrange(0, n as int) =~= full);
    }
    while i < n
        invariant
            i <= n,
            n == nodes@.len(),
            full == nodes_view(nodes@),
            reduce_rec(full, default_section(), Map::empty()) == reduce_rec(
                full.subrange(i as int, n as int),
                current@,
                out@,
            ),
        decreases n - i,
    {
        let ghost tail = full.subrange(i as int, n as int);
        proof {
            assert(tail[0] == nodes@[i as int]@);
            assert(tail.subrange(1, tail.len() as int) =~= full.subrange(i + 1, n as int));
        }
        let node = &nodes[i];
        match node.kind {
            NodeKind::Section => {
                if node.caps.len() >= 1 {
                    current = node.caps[0].clone();
                } else {
                    return Err(InIParseError::Finished);
                }
            },
            NodeKind::Property => {
                if node.caps.len() >= 2 {
                    let key = node.caps[0].clone();
                    let value = node.caps[1].clone();
                    out.put(current.clone(), key, value);
                } else {
                    return Err(InIParseError::Finished);
                }
            },
            NodeKind::Eoi => {},
            NodeKind::Comment => {
                return Err(InIParseError::Unreachable);
            },
        }
        i = i + 1;
    }
    proof {
        assert(full.subrange(n as int, n as int) =~= Seq::<NodeView>::empty());
    }
    Ok(out)
}

} // verus!
