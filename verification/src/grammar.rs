//! The grammar: what counts as a section header, property line, comment
//! or blank line, and the tokenizer that turns a document into a parse
//! tree (a flat list of typed nodes in document order) or fails with a
//! syntax error. Parsing is all-or-nothing over the whole document.

use vstd::prelude::*;
use vstd::string::StrSliceExecFns;
use vstd::string::StringExecFns;
use crate::InIParseError;
use crate::text::{find_char, find_in_range, trim, trim_range};

verus! {

/// The kinds of node a parse tree can hold. The tokenizer emits
/// `Section` and `Property` nodes and one final `Eoi` node; comment and
/// blank lines are consumed silently, so a `Comment` node never reaches
/// the reducer under a correct tokenizer.
#[derive(Clone, Copy, Debug, PartialEq, Eq, Structural)]
pub enum NodeKind {
    Section,
    Property,
    Eoi,
    Comment,
}

/// One parse-tree node: a kind together with its captured texts.
/// A well-formed `Section` node captures the section name; a
/// well-formed `Property` node captures the key and the value.
#[derive(Debug)]
pub struct Node {
    pub kind: NodeKind,
    pub caps: Vec<String>,
}

/// The mathematical shadow of a [`Node`].
pub struct NodeView {
    pub kind: NodeKind,
    pub caps: Seq<Seq<char>>,
}

impl View for Node {
    type V = NodeView;

    open spec fn view(&self) -> NodeView {
        NodeView { kind: self.kind, caps: self.caps.deep_view() }
    }
}

/// What a single line of the document means.
pub enum LineShape {
    Blank,
    Comment,
    Section { name: Seq<char> },
    Property { key: Seq<char>, value: Seq<char> },
    Malformed,
}

/// Classify one line. After trimming surrounding whitespace: an empty
/// line is blank; a line opening with `;` or `#` is a comment; a line
/// opening with `[` must close with `]` around a nonempty name free of
/// `]`; any other line must be `key = value` with a nonempty key free
/// of `[` and `=`, the key and the value trimmed of surrounding
/// whitespace. Everything else is malformed.
pub open spec fn classify_line(line: Seq<char>) -> LineShape {
    let t = trim(line);
    if t.len() == 0 {
        LineShape::Blank
    } else if t[0] == ';' || t[0] == '#' {
        LineShape::Comment
    } else if t[0] == '[' {
        if t.len() >= 2 && t[t.len() - 1] == ']' && find_char(
            t.subrange(1, t.len() - 1),
            ']',
        ) == -1 && trim(t.subrange(1, t.len() - 1)).len() > 0 {
            LineShape::Section { name: trim(t.subrange(1, t.len() - 1)) }
        } else {
            LineShape::Malformed
        }
    } else {
        let e = find_char(t, '=');
        if e >= 0 {
            let key = trim(t.subrange(0, e));
            let value = trim(t.subrange(e + 1, t.len() as int));
            if key.len() > 0 && find_char(key, '[') == -1 {
                LineShape::Property { key, value }
            } else {
                LineShape::Malformed
            }
        } else {
            LineShape::Malformed
        }
    }
}

/// The document cut at every newline; the separators are consumed.
pub open spec fn split_lines(s: Seq<char>) -> Seq<Seq<char>>
    decreases s.len(),
{
    let d = find_char(s, '\n');
    if 0 <= d < s.len() {
        seq![s.subrange(0, d)] + split_lines(s.subrange(d + 1, s.len() as int))
    } else {
        seq![s]
    }
}

/// Whether every line of the document conforms to the grammar.
pub open spec fn lines_ok(ls: Seq<Seq<char>>) -> bool {
    forall|i: int| 0 <= i < ls.len() ==> !(classify_line(#[trigger] ls[i]) is Malformed)
}

/// Whether the whole document conforms to the grammar.
pub open spec fn doc_ok(s: Seq<char>) -> bool {
    lines_ok(split_lines(s))
}

/// The nodes contributed by one line: one node for a section header or
/// a property, none for a blank or comment line.
pub open spec fn line_node_views(line: Seq<char>) -> Seq<NodeView> {
    match classify_line(line) {
        LineShape::Section { name } => seq![
            NodeView { kind: NodeKind::Section, caps: seq![name] },
        ],
        LineShape::Property { key, value } => seq![
            NodeView { kind: NodeKind::Property, caps: seq![key, value] },
        ],
        _ => Seq::empty(),
    }
}

/// The nodes contributed by a sequence of lines, in document order.
pub open spec fn lines_node_views(ls: Seq<Seq<char>>) -> Seq<NodeView>
    decreases ls.len(),
{
    if ls.len() == 0 {
        Seq::empty()
    } else {
        line_node_views(ls[0]) + lines_node_views(ls.subrange(1, ls.len() as int))
    }
}

/// The end-of-input marker closing every successful parse.
pub open spec fn eoi_node_view() -> NodeView {
    NodeView { kind: NodeKind::Eoi, caps: Seq::empty() }
}

/// The parse tree of a conforming document.
pub open spec fn doc_node_views(s: Seq<char>) -> Seq<NodeView> {
    lines_node_views(split_lines(s)) + seq![eoi_node_view()]
}

/// The views of a vector of nodes.
pub open spec fn nodes_view(ns: Seq<Node>) -> Seq<NodeView> {
    ns.map_values(|n: Node| n@)
}

/// A node the reducer can consume: a section header carrying exactly
/// its name, a property carrying exactly key and value, or the
/// end-of-input marker.
pub open spec fn wf_node(n: NodeView) -> bool {
    match n.kind {
        NodeKind::Section => n.caps.len() == 1,
        NodeKind::Property => n.caps.len() == 2,
        NodeKind::Eoi => true,
        NodeKind::Comment => false,
    }
}

/// A parse tree made only of consumable nodes.
pub open spec fn wf_nodes(ns: Seq<NodeView>) -> bool {
    forall|i: int| 0 <= i < ns.len() ==> wf_node(#[trigger] ns[i])
}

/// The tokenizer only ever emits well-formed nodes.
pub proof fn lemma_lines_node_views_wf(ls: Seq<Seq<char>>)
    ensures
        wf_nodes(lines_node_views(ls)),
    decreases ls.len(),
{
    if ls.len() > 0 {
        lemma_lines_node_views_wf(ls.subrange(1, ls.len() as int));
        let head = line_node_views(ls[0]);
        let rest = lines_node_views(ls.subrange(1, ls.len() as int));
        assert forall|i: int| 0 <= i < lines_node_views(ls).len() implies wf_node(
            #[trigger] lines_node_views(ls)[i],
        ) by {
            if i < head.len() {
                assert(lines_node_views(ls)[i] == head[i]);
            } else {
                assert(lines_node_views(ls)[i] == rest[i - head.len()]);
            }
        }
    }
}

/// The parse tree of a document is always well formed.
pub proof fn lemma_doc_node_views_wf(s: Seq<char>)
    ensures
        wf_nodes(doc_node_views(s)),
{
    lemma_lines_node_views_wf(split_lines(s));
    let body = lines_node_views(split_lines(s));
    assert forall|i: int| 0 <= i < doc_node_views(s).len() implies wf_node(
        #[trigger] doc_node_views(s)[i],
    ) by {
        if i < body.len() {
            assert(doc_node_views(s)[i] == body[i]);
        } else {
            assert(doc_node_views(s)[i] == eoi_node_view());
        }
    }
}

/// A syntax error naming the offending line.
fn syntax_error(s: &str, lo: usize, hi: usize) -> (e: InIParseError)
    requires
        lo <= hi <= s@.len(),
    ensures
        e is UnsuccessfulParse,
{
    let mut msg = "expected a section header, a property, a comment, or a blank line, got: ".to_owned();
    msg.append(s.substring_char(lo, hi));
    InIParseError::UnsuccessfulParse(msg)
}

/// Tokenize one line, the character range `[lo, hi)` of `s`: no node
/// for a blank or comment line, a node for a section header or a
/// property, a syntax error for a malformed line.
fn classify_range(s: &str, lo: usize, hi: usize) -> (r: Result<Option<Node>, InIParseError>)
    requires
        lo <= hi <= s@.len(),
    ensures
        match classify_line(s@.subrange(lo as int, hi as int)) {
            LineShape::Blank => r matches Ok(o) && o is None,
            LineShape::Comment => r matches Ok(o) && o is None,
            LineShape::Section { name } => r matches Ok(o) && o matches Some(nd) && nd@.kind
                is Section && nd@.caps == seq![name],
            LineShape::Property { key, value } => r matches Ok(o) && o matches Some(nd) && nd@.kind
                is Property && nd@.caps == seq![key, value],
            LineShape::Malformed => r matches Err(e) && e is UnsuccessfulParse,
        },
{
    let ghost line = s@.subrange(lo as int, hi as int);
    let (a, b) = trim_range(s, lo, hi);
    let ghost t = trim(line);
    proof {
        assert(t == s@.subrange(a as int, b as int));
        assert(t.len() == b - a);
        assert(forall|j: int| 0 <= j < t.len() ==> t[j] == s@[a + j]);
    }
    if a == b {
        return Ok(None);
    }
    let c0 = s.get_char(a);
    proof {
        assert(c0 == t[0]);
    }
    if c0 == ';' || c0 == '#' {
        return Ok(None);
    }
    if c0 == '[' {
        let cl = s.get_char(b - 1);
        proof {
            assert(cl == t[t.len() - 1]);
        }
        if b - a >= 2 && cl == ']' {
            proof {
                assert(t.subrange(1, t.len() - 1) =~= s@.subrange(a + 1, b - 1));
            }
            match find_in_range(s, a + 1, b - 1, ']') {
                Some(_) => {
                    return Err(syntax_error(s, a, b));
                },
                None => {
                    let (na, nb) = trim_range(s, a + 1, b - 1);
                    proof {
                        assert(trim(t.subrange(1, t.len() - 1)) == s@.subrange(
                            na as int,
                            nb as int,
                        ));
                    }
                    if na == nb {
                        return Err(syntax_error(s, a, b));
                    }
                    let name = s.substring_char(na, nb).to_owned();
                    let node = Node { kind: NodeKind::Section, caps: vec![name] };
                    proof {
                        assert(node@.caps =~= seq![trim(t.subrange(1, t.len() - 1))]);
                    }
                    return Ok(Some(node));
                },
            }
        } else {
            return Err(syntax_error(s, a, b));
        }
    }
    match find_in_range(s, a, b, '=') {
        None => Err(syntax_error(s, a, b)),
        Some(eq_pos) => {
            proof {
                assert(t.subrange(0, eq_pos - a) =~= s@.subrange(a as int, eq_pos as int));
                assert(t.subrange(eq_pos - a + 1, t.len() as int) =~= s@.subrange(
                    eq_pos + 1,
                    b as int,
                ));
            }
            let (ka, kb) = trim_range(s, a, eq_pos);
            let ghost key = trim(t.subrange(0, eq_pos - a));
            proof {
                assert(key == s@.subrange(ka as int, kb as int));
            }
            if ka == kb {
                return Err(syntax_error(s, a, b));
            }
            match find_in_range(s, ka, kb, '[') {
                Some(_) => Err(syntax_error(s, a, b)),
                None => {
                    let (va, vb) = trim_range(s, eq_pos + 1, b);
                    let ghost value = trim(t.subrange(eq_pos - a + 1, t.len() as int));
                    proof {
                        assert(value == s@.subrange(va as int, vb as int));
                    }
                    let key_text = s.substring_char(ka, kb).to_owned();
                    let value_text = s.substring_char(va, vb).to_owned();
                    let node = Node { kind: NodeKind::Property, caps: vec![key_text, value_text] };
                    proof {
                        assert(node@.caps =~= seq![key, value]);
                    }
                    Ok(Some(node))
                },
            }
        },
    }
}

/// The INI grammar. Its tokenizer reads a whole document and produces
/// the parse tree the reducer consumes, or a syntax error describing
/// the first offending line.
#[derive(Debug)]
pub struct Ini;

impl Ini {
    /// Tokenize a document: on success the returned nodes are exactly
    /// the parse tree of the document, ending with the end-of-input
    /// marker; a document with any malformed line is rejected whole.
    pub fn tokenize(content: &str) -> (r: Result<Vec<Node>, InIParseError>)
        ensures
            match r {
                Ok(ns) => doc_ok(content@) && nodes_view(ns@) == doc_node_views(content@),
                Err(e) => !doc_ok(content@) && e is UnsuccessfulParse,
            },
    {
        let n = content.unicode_len();
        let mut nodes: Vec<Node> = Vec::new();
        let mut pos: usize = 0;
        proof {
            assert(content@.subrange(0, n as int) =~= content@);
            assert(nodes_view(nodes@) =~= Seq::<NodeView>::empty());
            assert(nodes_view(nodes@) + lines_node_views(split_lines(content@))
                =~= lines_node_views(split_lines(content@)));
        }
        loop
            invariant_except_break
                pos <= n,
                n == content@.len(),
                lines_ok(split_lines(content@)) <==> lines_ok(
                    split_lines(content@.subrange(pos as int, n as int)),
                ),
                lines_node_views(split_lines(content@)) =~= nodes_view(nodes@) + lines_node_views(
                    split_lines(content@.subrange(pos as int, n as int)),
                ),
            ensures
                lines_ok(split_lines(content@)),
                lines_node_views(split_lines(content@)) =~= nodes_view(nodes@),
            decreases n - pos,
        {
            let ghost rest = content@.subrange(pos as int, n as int);
            let nl = find_in_range(content, pos, n, '\n');
            let end = match nl {
                Some(i) => i,
                None => n,
            };
            let ghost line = content@.subrange(pos as int, end as int);
            proof {
                if nl is Some {
                    let rest2 = content@.subrange(end + 1, n as int);
                    assert(find_char(rest, '\n') == end - pos);
                    assert(rest.subrange(0, end - pos) =~= line);
                    assert(rest.subrange(end - pos + 1, rest.len() as int) =~= rest2);
                    assert(split_lines(rest) == seq![line] + split_lines(rest2));
                } else {
                    assert(find_char(rest, '\n') == -1);
                    assert(rest =~= line);
                    assert(split_lines(rest) =~= seq![line]);
                }
            }
            let ghost prev = nodes@;
            match classify_range(content, pos, end) {
                Ok(opt) => {
                    match opt {
                        Some(node) => {
                            let ghost nv = node@;
                            proof {
                                assert(line_node_views(line) =~= seq![nv]);
                            }
                            nodes.push(node);
                            proof {
                                assert(nodes_view(nodes@) =~= nodes_view(prev) + line_node_views(
                                    line,
                                ));
                            }
                        },
                        None => {
                            proof {
                                assert(line_node_views(line) =~= Seq::<NodeView>::empty());
                                assert(nodes_view(nodes@) =~= nodes_view(prev) + line_node_views(
                                    line,
                                ));
                            }
                        },
                    }
                },
                Err(e) => {
                    proof {
                        let ls = split_lines(rest);
                        assert(ls[0] == line);
                        assert(classify_line(ls[0]) is Malformed);
                        assert(!lines_ok(ls));
                    }
                    return Err(e);
                },
            }
            proof {
                let ls = split_lines(rest);
                if nl is Some {
                    let rest2 = content@.subrange(end + 1, n as int);
                    let ls2 = split_lines(rest2);
                    assert(ls[0] == line);
                    assert(ls.subrange(1, ls.len() as int) =~= ls2);
                    assert(lines_node_views(ls) == line_node_views(line) + lines_node_views(ls2));
                    assert(lines_ok(ls) <==> (!(classify_line(line) is Malformed) && lines_ok(ls2)))
                        by {
                        if !(classify_line(line) is Malformed) && lines_ok(ls2) {
                            assert forall|i: int| 0 <= i < ls.len() implies !(classify_line(
                                #[trigger] ls[i],
                            ) is Malformed) by {
                                if i >= 1 {
                                    assert(ls[i] == ls2[i - 1]);
                                }
                            }
                        }
                    }
                } else {
                    assert(ls =~= seq![line]);
                    assert(ls.subrange(1, ls.len() as int) =~= Seq::<Seq<char>>::empty());
                    assert(lines_node_views(ls) == line_node_views(line) + lines_node_views(
                        Seq::<Seq<char>>::empty(),
                    ));
                    assert(lines_node_views(Seq::<Seq<char>>::empty()) =~= Seq::<NodeView>::empty());
                    assert(lines_ok(ls) <==> !(classify_line(line) is Malformed)) by {
                        assert(ls[0] == line);
                    }
                }
            }
            match nl {
                Some(i) => {
                    pos = i + 1;
                    proof {
                        assert(lines_node_views(split_lines(content@)) =~= nodes_view(nodes@)
                            + lines_node_views(
                            split_lines(content@.subrange(pos as int, n as int)),
                        ));
                    }
                },
                None => {
                    proof {
                        assert(lines_node_views(split_lines(content@)) =~= nodes_view(nodes@));
                    }
                    break;
                },
            }
        }
        let ghost prev = nodes@;
        nodes.push(Node { kind: NodeKind::Eoi, caps: Vec::new() });
        proof {
            assert(nodes@[prev.len() as int]@.caps =~= Seq::<Seq<char>>::empty());
            assert(nodes_view(nodes@) =~= nodes_view(prev).push(eoi_node_view()));
            assert(nodes_view(nodes@) =~= doc_node_views(content@));
        }
        Ok(nodes)
    }
}

} // verus!
