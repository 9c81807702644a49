//! The document tree handed in by the caller's parser.
use vstd::prelude::*;
use crate::text::ESCAPE;

verus! {

/// One element of the parsed document. Kinds outside this set are carried as
/// `Other` and produce no output.
pub enum Node {
    Root { children: Vec<Node> },
    Paragraph { children: Vec<Node> },
    Text { value: String },
    Heading { level: u8, children: Vec<Node> },
    InlineCode { value: String },
    FencedCode { lang: Option<String>, value: String },
    Emphasis { children: Vec<Node> },
    Strong { children: Vec<Node> },
    Link { url: String, children: Vec<Node> },
    ThematicBreak,
    BlockQuote { children: Vec<Node> },
    List { ordered: bool, start: Option<u32>, items: Vec<ListItem> },
    Other,
}

/// One item of a list.
pub struct ListItem {
    pub children: Vec<Node>,
}

/// Raw document text carries no escape character of its own: rendering
/// malformed ANSI input is out of scope.
pub open spec fn text_plain(s: Seq<char>) -> bool {
    forall|i: int| 0 <= i < s.len() ==> s[i] != ESCAPE
}

/// The first number of a list.
pub open spec fn list_start(start: Option<u32>) -> int {
    match start {
        Some(n) => n as int,
        None => 1,
    }
}

/// Nesting height of the tree, bounding the indentation depth reached below
/// a node.
pub open spec fn node_height(n: Node) -> nat
    decreases n
{
    match n {
        Node::Root { children } => 1 + nodes_height(children@),
        Node::Paragraph { children } => 1 + nodes_height(children@),
        Node::Text { .. } => 1,
        Node::Heading { children, .. } => 1 + nodes_height(children@),
        Node::InlineCode { .. } => 1,
        Node::FencedCode { .. } => 1,
        Node::Emphasis { children } => 1 + nodes_height(children@),
        Node::Strong { children } => 1 + nodes_height(children@),
        Node::Link { children, .. } => 1 + nodes_height(children@),
        Node::ThematicBreak => 1,
        Node::BlockQuote { children } => 1 + nodes_height(children@),
        Node::List { items, .. } => 2 + items_height(items@),
        Node::Other => 1,
    }
}

pub open spec fn nodes_height(s: Seq<Node>) -> nat
    decreases s
{
    if s.len() == 0 {
        0
    } else {
        let h = node_height(s[0]);
        let t = nodes_height(s.drop_first());
        if h > t {
            h
        } else {
            t
        }
    }
}

pub open spec fn items_height(s: Seq<ListItem>) -> nat
    decreases s
{
    if s.len() == 0 {
        0
    } else {
        let h = nodes_height(s[0].children@);
        let t = items_height(s.drop_first());
        if h > t {
            h
        } else {
            t
        }
    }
}

pub proof fn lemma_nodes_height_ge(s: Seq<Node>, i: int)
    requires
        0 <= i < s.len(),
    ensures
        node_height(s[i]) <= nodes_height(s),
    decreases s.len(),
{
    if i > 0 {
        lemma_nodes_height_ge(s.drop_first(), i - 1);
    }
}

pub proof fn lemma_items_height_ge(s: Seq<ListItem>, i: int)
    requires
        0 <= i < s.len(),
    ensures
        nodes_height(s[i].children@) <= items_height(s),
    decreases s.len(),
{
    if i > 0 {
        lemma_items_height_ge(s.drop_first(), i - 1);
    }
}

/// Well-formed input: raw text free of escape characters, and list numbering
/// that fits the counter.
pub open spec fn node_wf(n: Node) -> bool
    decreases n
{
    match n {
        Node::Root { children } => nodes_wf(children@),
        Node::Paragraph { children } => nodes_wf(children@),
        Node::Text { value } => text_plain(value@),
        Node::Heading { children, .. } => nodes_wf(children@),
        Node::InlineCode { value } => text_plain(value@),
        Node::FencedCode { lang, value } => text_plain(value@) && match lang {
            Some(l) => text_plain(l@),
            None => true,
        },
        Node::Emphasis { children } => nodes_wf(children@),
        Node::Strong { children } => nodes_wf(children@),
        Node::Link { url, children } => text_plain(url@) && nodes_wf(children@),
        Node::ThematicBreak => true,
        Node::List { ordered, start, items } => list_start(start) + items@.len() <= u32::MAX
            && items_wf(items@),
        Node::BlockQuote { children } => nodes_wf(children@),
        Node::Other => true,
    }
}

pub open spec fn nodes_wf(s: Seq<Node>) -> bool
    decreases s
{
    if s.len() == 0 {
        true
    } else {
        node_wf(s[0]) && nodes_wf(s.drop_first())
    }
}

pub open spec fn items_wf(s: Seq<ListItem>) -> bool
    decreases s
{
    if s.len() == 0 {
        true
    } else {
        nodes_wf(s[0].children@) && items_wf(s.drop_first())
    }
}

pub proof fn lemma_nodes_wf_index(s: Seq<Node>, i: int)
    requires
        0 <= i < s.len(),
        nodes_wf(s),
    ensures
        node_wf(s[i]),
    decreases s.len(),
{
    if i > 0 {
        lemma_nodes_wf_index(s.drop_first(), i - 1);
    }
}

pub proof fn lemma_items_wf_index(s: Seq<ListItem>, i: int)
    requires
        0 <= i < s.len(),
        items_wf(s),
    ensures
        nodes_wf(s[i].children@),
    decreases s.len(),
{
    if i > 0 {
        lemma_items_wf_index(s.drop_first(), i - 1);
    }
}

} // verus!
