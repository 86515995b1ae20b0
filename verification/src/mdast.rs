//! The markdown syntax tree of a fact's description.

use vstd::prelude::*;

verus! {

/// A run of literal text.
pub struct Text {
    pub value: String,
}

/// A hyperlink: its target and the nodes that make up its label.
pub struct Link {
    pub children: Vec<MdNode>,
    pub url: String,
}

/// A node of the syntax tree.
pub enum MdNode {
    /// The document.
    Root { children: Vec<MdNode> },
    /// A bullet or numbered list.
    List { children: Vec<MdNode> },
    /// One item of a list.
    ListItem { children: Vec<MdNode> },
    Link(Link),
    Text(Text),
    /// Any other node; a leaf has no children.
    Other { children: Vec<MdNode> },
}

/// The mathematical value of a [`Link`].
pub struct LinkView {
    pub children: Seq<MdNodeView>,
    pub url: Seq<char>,
}

/// The mathematical value of a [`MdNode`].
pub enum MdNodeView {
    Root { children: Seq<MdNodeView> },
    List { children: Seq<MdNodeView> },
    ListItem { children: Seq<MdNodeView> },
    Link(LinkView),
    Text(Seq<char>),
    Other { children: Seq<MdNodeView> },
}

/// The views of a sequence of nodes, element by element.
pub open spec fn nodes_view(nodes: Seq<MdNode>) -> Seq<MdNodeView>
    decreases nodes, 1int,
{
    Seq::new(nodes.len(), |i: int| if 0 <= i < nodes.len() { node_view(nodes[i]) } else { arbitrary() })
}

/// The view of one node.
pub open spec fn node_view(node: MdNode) -> MdNodeView
    decreases node, 0int,
{
    match node {
        MdNode::Root { children } => MdNodeView::Root { children: nodes_view(children@) },
        MdNode::List { children } => MdNodeView::List { children: nodes_view(children@) },
        MdNode::ListItem { children } => MdNodeView::ListItem { children: nodes_view(children@) },
        MdNode::Link(link) => MdNodeView::Link(
            LinkView { children: nodes_view(link.children@), url: link.url@ },
        ),
        MdNode::Text(text) => MdNodeView::Text(text.value@),
        MdNode::Other { children } => MdNodeView::Other { children: nodes_view(children@) },
    }
}

impl View for Text {
    type V = Seq<char>;

    open spec fn view(&self) -> Seq<char> {
        self.value@
    }
}

impl View for Link {
    type V = LinkView;

    open spec fn view(&self) -> LinkView {
        LinkView { children: nodes_view(self.children@), url: self.url@ }
    }
}

impl View for MdNode {
    type V = MdNodeView;

    open spec fn view(&self) -> MdNodeView {
        node_view(*self)
    }
}

/// A syntax tree as the markdown parser builds it.
#[verifier::external_type_specification]
#[verifier::external_body]
pub struct ExMdastNode(markdown::mdast::Node);

/// What the markdown parser reports when it gives up on a text.
#[verifier::external_type_specification]
#[verifier::external_body]
pub struct ExMessage(markdown::message::Message);

/// The tree that `markdown::to_mdast` builds from `text` under
/// `markdown::ParseOptions::default()`, carried over node by node as
/// [`mdast_to_node`] does; `None` where the parser reports a message instead.
pub uninterp spec fn markdown_tree(text: Seq<char>) -> Option<MdNodeView>;

/// Carries a tree of `markdown::mdast::Node` over, node by node: `Root`,
/// `List`, `ListItem`, `Link` (with its `url`) and `Text` (with its `value`)
/// keep their kind, every other kind becomes [`MdNode::Other`]; the children are
/// those that `markdown::mdast::Node::children` hands out, in their order.
#[verifier::external_body]
fn mdast_to_node(node: &markdown::mdast::Node) -> MdNode {
    let children: Vec<MdNode> = match node.children() {
        Some(nodes) => nodes.iter().map(mdast_to_node).collect(),
        None => Vec::new(),
    };
    match node {
        markdown::mdast::Node::Root(_) => MdNode::Root { children },
        markdown::mdast::Node::List(_) => MdNode::List { children },
        markdown::mdast::Node::ListItem(_) => MdNode::ListItem { children },
        markdown::mdast::Node::Link(link) => MdNode::Link(Link { children, url: link.url.clone() }),
        markdown::mdast::Node::Text(text) => MdNode::Text(Text { value: text.value.clone() }),
        _ => MdNode::Other { children },
    }
}

/// Calls `markdown::to_mdast` on `text` with the default parse options. The
/// parser is a function of the text alone: the tree that comes back is
/// [`markdown_tree`] of the text, and a message comes back exactly where that
/// is `None`.
#[verifier::external_body]
fn to_mdast(text: &str) -> (parsed: Result<MdNode, markdown::message::Message>)
    ensures
        match parsed {
            Ok(tree) => markdown_tree(text@) == Some(tree@),
            Err(_) => markdown_tree(text@) is None,
        },
{
    match markdown::to_mdast(text, &markdown::ParseOptions::default()) {
        Ok(root) => Ok(mdast_to_node(&root)),
        Err(message) => Err(message),
    }
}

/// The description could not be read as markdown.
#[derive(Debug)]
pub struct ParseFailure {}

/// Reads a description as markdown.
pub fn parse(text: &str) -> (parsed: Result<MdNode, ParseFailure>)
    ensures
        match parsed {
            Ok(tree) => markdown_tree(text@) == Some(tree@),
            Err(_) => markdown_tree(text@) is None,
        },
{
    match to_mdast(text) {
        Ok(tree) => Ok(tree),
        Err(_) => Err(ParseFailure {}),
    }
}

/// `node` and everything below it, each node before its children and the
/// children in document order.
pub open spec fn flatten(node: MdNodeView) -> Seq<MdNodeView>
    decreases node, 0int,
{
    match node {
        MdNodeView::Root { children } => seq![node] + flatten_all(children),
        MdNodeView::List { children } => seq![node] + flatten_all(children),
        MdNodeView::ListItem { children } => seq![node] + flatten_all(children),
        MdNodeView::Link(link) => seq![node] + flatten_all(link.children),
        MdNodeView::Text(_) => seq![node],
        MdNodeView::Other { children } => seq![node] + flatten_all(children),
    }
}

/// The flattenings of `nodes`, one after the other.
pub open spec fn flatten_all(nodes: Seq<MdNodeView>) -> Seq<MdNodeView>
    decreases nodes, 1int,
{
    if nodes.len() == 0 {
        Seq::empty()
    } else {
        flatten_all(nodes.drop_last()) + flatten(nodes.last())
    }
}

} // verus!
