//! Syntax trees of JavaScript and TypeScript sources. The grammars and the
//! parser are tree-sitter's; this module receives the parse as a preorder
//! walk, rebuilds the tree from it, and checks that every node's byte range
//! lies on character boundaries of the source, so that node text can be read.

use tree_sitter::Parser;
use tree_sitter_javascript::LANGUAGE;
use tree_sitter_typescript::LANGUAGE_TSX;
use vstd::prelude::*;
use vstd::string::StringSliceAdditionalSpecFns;

use crate::text::{byte_range_chars, byte_range_ok, byte_slice, str_eq, to_string};

verus! {

/// Which tree-sitter grammar parses a file.
#[derive(Clone, Copy, Debug)]
pub enum Grammar {
    /// The TSX grammar of tree-sitter-typescript, used for `.ts` and `.tsx`.
    Tsx,
    /// tree-sitter-javascript's grammar, used for everything else.
    JavaScript,
}

/// What the walk reports of one node.
#[derive(Debug)]
pub struct NodeInfo {
    pub kind: String,
    pub named: bool,
    /// The field under which the node stands in its parent, if any.
    pub field: Option<String>,
    pub start_byte: usize,
    pub end_byte: usize,
    pub start_row: usize,
    pub end_row: usize,
}

pub struct NodeInfoView {
    pub kind: Seq<char>,
    pub named: bool,
    pub field: Option<Seq<char>>,
    pub start_byte: usize,
    pub end_byte: usize,
    pub start_row: usize,
    pub end_row: usize,
}

impl View for NodeInfo {
    type V = NodeInfoView;

    open spec fn view(&self) -> NodeInfoView {
        NodeInfoView {
            kind: self.kind@,
            named: self.named,
            field: match self.field {
                Some(f) => Some(f@),
                None => None,
            },
            start_byte: self.start_byte,
            end_byte: self.end_byte,
            start_row: self.start_row,
            end_row: self.end_row,
        }
    }
}

/// One step of a preorder walk of a syntax tree: entering a node, or
/// leaving the node entered last and not yet left.
#[derive(Debug)]
pub enum SyntaxEvent {
    Enter(NodeInfo),
    Leave,
}

pub enum SyntaxEventView {
    Enter(NodeInfoView),
    Leave,
}

impl DeepView for SyntaxEvent {
    type V = SyntaxEventView;

    open spec fn deep_view(&self) -> SyntaxEventView {
        match self {
            SyntaxEvent::Enter(info) => SyntaxEventView::Enter(info@),
            SyntaxEvent::Leave => SyntaxEventView::Leave,
        }
    }
}

/// The walk that tree-sitter's parse of `source` with `grammar` yields, or
/// `None` where tree-sitter returns no tree.
pub uninterp spec fn parsed_syntax(grammar: Grammar, source: Seq<char>) -> Option<
    Seq<SyntaxEventView>,
>;

/// Parses `source` with tree-sitter (`Parser::set_language`, `Parser::parse`)
/// and walks the tree with a `TreeCursor` (`goto_first_child`,
/// `goto_next_sibling`, `goto_parent`), reporting each node's kind, whether
/// it is named, its field name, byte range and rows. The contract claims only
/// that the walk is a function of the grammar and the source text; nothing of
/// its shape is assumed: the caller checks it.
#[verifier::external_body]
fn parse_syntax(grammar: Grammar, source: &str) -> (events: Option<Vec<SyntaxEvent>>)
    ensures
        events.deep_view() == parsed_syntax(grammar, source@),
{
    let mut parser = Parser::new();
    parser.set_language(&if let Grammar::Tsx = grammar { LANGUAGE_TSX.into() } else { LANGUAGE.into() }).ok()?;
    let tree = parser.parse(source, None)?;
    let (mut c, mut events) = (tree.walk(), vec![]);
    loop {
        let n = c.node();
        events.push(enter_event(n.kind(), n.is_named(), c.field_name(), n.start_byte(), n.end_byte(), n.start_position().row, n.end_position().row));
        if c.goto_first_child() { continue; }
        events.push(SyntaxEvent::Leave);
        while !c.goto_next_sibling() {
            if !c.goto_parent() { return Some(events); }
            events.push(SyntaxEvent::Leave);
        }
    }
}

/// The event of entering a node with the given description.
fn enter_event(
    kind: &str,
    named: bool,
    field: Option<&str>,
    start_byte: usize,
    end_byte: usize,
    start_row: usize,
    end_row: usize,
) -> (e: SyntaxEvent)
    ensures
        e.deep_view() == SyntaxEventView::Enter(
            NodeInfoView {
                kind: kind@,
                named,
                field: match field {
                    Some(f) => Some(f@),
                    None => None,
                },
                start_byte,
                end_byte,
                start_row,
                end_row,
            },
        ),
{
    let field = match field {
        Some(f) => Some(to_string(f)),
        None => None,
    };
    SyntaxEvent::Enter(NodeInfo { kind: to_string(kind), named, field, start_byte, end_byte, start_row, end_row })
}

} // verus!

verus! {

/// A node of a syntax tree with its children in order.
#[derive(Debug)]
pub struct SyntaxNode {
    pub info: NodeInfo,
    pub children: Vec<SyntaxNode>,
}

/// The preorder walk of a tree.
pub open spec fn node_events(n: SyntaxNode) -> Seq<SyntaxEventView>
    decreases n,
{
    seq![SyntaxEventView::Enter(n.info@)] + forest_events(n.children@) + seq![
        SyntaxEventView::Leave,
    ]
}

/// The walks of a sequence of trees, one after the other.
pub open spec fn forest_events(ns: Seq<SyntaxNode>) -> Seq<SyntaxEventView>
    decreases ns,
{
    if ns.len() == 0 {
        Seq::empty()
    } else {
        node_events(ns[0]) + forest_events(ns.drop_first())
    }
}

/// A node's byte range can be read from `source` and its rows can be
/// counted from one.
pub open spec fn info_ok(info: NodeInfoView, source: &str) -> bool {
    &&& byte_range_ok(source, info.start_byte as int, info.end_byte as int)
    &&& info.start_row < usize::MAX
    &&& info.end_row < usize::MAX
}

/// Every node of the tree satisfies `info_ok`.
pub open spec fn wf_node(n: SyntaxNode, source: &str) -> bool
    decreases n,
{
    &&& info_ok(n.info@, source)
    &&& forall|i: int| 0 <= i < n.children@.len() ==> wf_node(#[trigger] n.children@[i], source)
}

/// Reading a walk from `pos`: where the node entered at `pos` is left, if
/// the walk holds a whole node there whose every range is `info_ok`.
pub open spec fn scan_node(ev: Seq<SyntaxEventView>, pos: int, source: &str) -> Option<int>
    decreases ev.len() - pos, 0int,
{
    if 0 <= pos < ev.len() {
        match ev[pos] {
            SyntaxEventView::Enter(info) => if info_ok(info, source) {
                scan_children(ev, pos + 1, source)
            } else {
                None
            },
            SyntaxEventView::Leave => None,
        }
    } else {
        None
    }
}

/// Reading the children of a node from `pos` up to and including the event
/// that leaves the node.
pub open spec fn scan_children(ev: Seq<SyntaxEventView>, pos: int, source: &str) -> Option<int>
    decreases ev.len() - pos, 1int,
{
    if 0 <= pos < ev.len() {
        match ev[pos] {
            SyntaxEventView::Leave => Some(pos + 1),
            SyntaxEventView::Enter(_) => match scan_node(ev, pos, source) {
                Some(e) => if pos < e <= ev.len() {
                    scan_children(ev, e, source)
                } else {
                    None
                },
                None => None,
            },
        }
    } else {
        None
    }
}

proof fn lemma_forest_events_push(ns: Seq<SyntaxNode>, n: SyntaxNode)
    ensures
        forest_events(ns.push(n)) == forest_events(ns) + node_events(n),
    decreases ns.len(),
{
    if ns.len() == 0 {
        assert(ns.push(n).drop_first() =~= Seq::<SyntaxNode>::empty());
        assert(forest_events(Seq::<SyntaxNode>::empty()) == Seq::<SyntaxEventView>::empty());
        assert(forest_events(ns.push(n)) =~= node_events(n));
        assert(forest_events(ns) == Seq::<SyntaxEventView>::empty());
    } else {
        assert(ns.push(n).drop_first() =~= ns.drop_first().push(n));
        lemma_forest_events_push(ns.drop_first(), n);
        assert(forest_events(ns.push(n)) =~= forest_events(ns) + node_events(n));
    }
}

fn copy_info(info: &NodeInfo) -> (r: NodeInfo)
    ensures
        r@ == info@,
{
    NodeInfo {
        kind: info.kind.clone(),
        named: info.named,
        field: match &info.field {
            Some(f) => Some(f.clone()),
            None => None,
        },
        start_byte: info.start_byte,
        end_byte: info.end_byte,
        start_row: info.start_row,
        end_row: info.end_row,
    }
}

fn check_info(info: &NodeInfo, source: &str) -> (b: bool)
    ensures
        b == info_ok(info@, source),
{
    broadcast use vstd::utf8::encode_utf8_valid_utf8;

    let ok = info.start_byte <= info.end_byte && source.is_char_boundary(info.start_byte)
        && source.is_char_boundary(info.end_byte) && info.start_row < usize::MAX && info.end_row
        < usize::MAX;
    proof {
        if ok {
            assert(vstd::utf8::valid_utf8(source.spec_bytes()));
            assert(info.end_byte <= source.spec_bytes().len());
        }
    }
    ok
}

fn build_node(ev: &Vec<SyntaxEvent>, pos: usize, source: &str) -> (r: Option<(SyntaxNode, usize)>)
    requires
        pos <= ev.len(),
    ensures
        match r {
            Some((t, e)) => {
                &&& scan_node(ev.deep_view(), pos as int, source) == Some(e as int)
                &&& pos < e <= ev.len()
                &&& ev.deep_view().subrange(pos as int, e as int) == node_events(t)
                &&& wf_node(t, source)
            },
            None => scan_node(ev.deep_view(), pos as int, source) is None,
        },
    decreases ev.len() - pos, 0int,
{
    if pos >= ev.len() {
        return None;
    }
    match &ev[pos] {
        SyntaxEvent::Leave => None,
        SyntaxEvent::Enter(info) => {
            if !check_info(info, source) {
                return None;
            }
            match build_children(ev, pos + 1, source) {
                None => None,
                Some((children, e)) => {
                    let t = SyntaxNode { info: copy_info(info), children };
                    proof {
                        let evv = ev.deep_view();
                        assert(evv[pos as int] == SyntaxEventView::Enter(info@));
                        assert(evv.subrange(pos as int, e as int) =~= seq![
                            SyntaxEventView::Enter(info@),
                        ] + evv.subrange(pos + 1, e as int));
                        assert(evv.subrange(pos as int, e as int) =~= node_events(t));
                    }
                    Some((t, e))
                },
            }
        },
    }
}

fn build_children(ev: &Vec<SyntaxEvent>, pos: usize, source: &str) -> (r: Option<
    (Vec<SyntaxNode>, usize),
>)
    requires
        pos <= ev.len(),
    ensures
        match r {
            Some((cs, e)) => {
                &&& scan_children(ev.deep_view(), pos as int, source) == Some(e as int)
                &&& pos < e <= ev.len()
                &&& ev.deep_view().subrange(pos as int, e as int) == forest_events(cs@) + seq![
                    SyntaxEventView::Leave,
                ]
                &&& forall|i: int| 0 <= i < cs@.len() ==> wf_node(#[trigger] cs@[i], source)
            },
            None => scan_children(ev.deep_view(), pos as int, source) is None,
        },
    decreases ev.len() - pos, 1int,
{
    let ghost evv = ev.deep_view();
    let mut children: Vec<SyntaxNode> = Vec::new();
    let mut p = pos;
    assert(evv.subrange(pos as int, p as int) =~= forest_events(children@));
    loop
        invariant
            pos <= p <= ev.len(),
            evv == ev.deep_view(),
            scan_children(evv, pos as int, source) == scan_children(evv, p as int, source),
            evv.subrange(pos as int, p as int) == forest_events(children@),
            forall|i: int| 0 <= i < children@.len() ==> wf_node(#[trigger] children@[i], source),
        decreases ev.len() - p,
    {
        if p >= ev.len() {
            return None;
        }
        match &ev[p] {
            SyntaxEvent::Leave => {
                proof {
                    assert(evv[p as int] == SyntaxEventView::Leave);
                    assert(evv.subrange(pos as int, p + 1) =~= evv.subrange(pos as int, p as int)
                        + seq![SyntaxEventView::Leave]);
                }
                return Some((children, p + 1));
            },
            SyntaxEvent::Enter(_) => {
                match build_node(ev, p, source) {
                    None => {
                        return None;
                    },
                    Some((c, e)) => {
                        proof {
                            lemma_forest_events_push(children@, c);
                            assert(evv.subrange(pos as int, e as int) =~= evv.subrange(
                                pos as int,
                                p as int,
                            ) + evv.subrange(p as int, e as int));
                        }
                        children.push(c);
                        p = e;
                    },
                }
            },
        }
    }
}

/// The syntax tree of `source` under `grammar`: the tree whose walk is the
/// one tree-sitter yields, provided that walk is one whole tree and every
/// node's byte range lies on character boundaries of `source`.
pub fn syntax_tree(grammar: Grammar, source: &str) -> (r: Option<SyntaxNode>)
    ensures
        r is Some <==> (parsed_syntax(grammar, source@) matches Some(ev) && scan_node(
            ev,
            0,
            source,
        ) == Some(ev.len() as int)),
        r matches Some(t) ==> parsed_syntax(grammar, source@) == Some(node_events(t)) && wf_node(
            t,
            source,
        ),
{
    let events = parse_syntax(grammar, source);
    match events {
        None => None,
        Some(ev) => {
            let ghost evv = ev.deep_view();
            match build_node(&ev, 0, source) {
                None => None,
                Some((t, e)) => {
                    if e == ev.len() {
                        proof {
                            assert(evv.subrange(0, e as int) =~= evv);
                        }
                        Some(t)
                    } else {
                        None
                    }
                },
            }
        },
    }
}

/// The text of a node.
pub open spec fn node_text(n: SyntaxNode, source: &str) -> Seq<char> {
    byte_range_chars(source, n.info.start_byte as int, n.info.end_byte as int)
}

/// The text of a node, read from the source it was parsed from.
pub fn text_of<'a>(n: &SyntaxNode, source: &'a str) -> (r: &'a str)
    requires
        info_ok(n.info@, source),
    ensures
        r@ == node_text(*n, source),
{
    byte_slice(source, n.info.start_byte, n.info.end_byte)
}

} // verus!

verus! {

/// Whether a node is of kind `k`.
pub open spec fn has_kind(n: SyntaxNode, k: Seq<char>) -> bool {
    n.info.kind@ == k
}

/// Whether a node is of kind `k` (compares its kind with `k`).
pub fn kind_is(n: &SyntaxNode, k: &str) -> (b: bool)
    ensures
        b == has_kind(*n, k@),
{
    str_eq(n.info.kind.as_str(), k)
}

/// The first index, from `i` on, of a node that stands under field `f`.
pub open spec fn first_field(cs: Seq<SyntaxNode>, f: Seq<char>, i: int) -> Option<int>
    decreases cs.len() - i,
{
    if i < 0 || i >= cs.len() {
        None
    } else if cs[i].info@.field == Some(f) {
        Some(i)
    } else {
        first_field(cs, f, i + 1)
    }
}

/// The first child of `n` under field `f` (tree-sitter's
/// `child_by_field_name`).
pub open spec fn field_child(n: SyntaxNode, f: Seq<char>) -> Option<SyntaxNode> {
    match first_field(n.children@, f, 0) {
        Some(i) => Some(n.children@[i]),
        None => None,
    }
}

/// The text of the first child of `n` under field `f`.
pub open spec fn field_text(n: SyntaxNode, f: Seq<char>, source: &str) -> Option<Seq<char>> {
    match field_child(n, f) {
        Some(c) => Some(node_text(c, source)),
        None => None,
    }
}

proof fn lemma_first_field_range(cs: Seq<SyntaxNode>, f: Seq<char>, i: int)
    ensures
        first_field(cs, f, i) matches Some(k) ==> i <= k < cs.len() && 0 <= k,
    decreases cs.len() - i,
{
    if 0 <= i < cs.len() && cs[i].info@.field != Some(f) {
        lemma_first_field_range(cs, f, i + 1);
    }
}

/// The index of the first child of `n` under field `f`.
pub fn field_child_index(n: &SyntaxNode, f: &str) -> (r: Option<usize>)
    ensures
        r matches Some(k) ==> k < n.children@.len() && first_field(n.children@, f@, 0) == Some(
            k as int,
        ),
        r is None ==> first_field(n.children@, f@, 0) is None,
{
    let mut i: usize = 0;
    while i < n.children.len()
        invariant
            i <= n.children@.len(),
            first_field(n.children@, f@, 0) == first_field(n.children@, f@, i as int),
        decreases n.children.len() - i,
    {
        let hit = match &n.children[i].info.field {
            Some(x) => str_eq(x.as_str(), f),
            None => false,
        };
        if hit {
            return Some(i);
        }
        i += 1;
    }
    None
}

/// The text of the first child of `n` under field `f`.
pub fn field_text_of(n: &SyntaxNode, f: &str, source: &str) -> (r: Option<String>)
    requires
        wf_node(*n, source),
    ensures
        r matches Some(t) ==> field_text(*n, f@, source) == Some(t@),
        r is None ==> field_text(*n, f@, source) is None,
{
    match field_child_index(n, f) {
        Some(k) => {
            let c = &n.children[k];
            assert(wf_node(n.children@[k as int], source));
            Some(to_string(text_of(c, source)))
        },
        None => None,
    }
}

} // verus!
