use html_parser::Node as ParsedNode;
use vstd::prelude::*;

verus! {

/// One node of a parsed document.
pub enum Node {
    Text(String),
    Element(Element),
    Comment(String),
}

/// An element: its tag, its id, its classes and attributes in document order,
/// and its children.
pub struct Element {
    pub name: String,
    pub id: Option<String>,
    pub classes: Vec<String>,
    pub attributes: Vec<(String, Option<String>)>,
    pub children: Vec<Node>,
}

/// The characters of each string of `v`.
pub open spec fn views(v: Seq<String>) -> Seq<Seq<char>> {
    v.map_values(|s: String| s@)
}

/// The number of nodes in `n`, itself included.
pub open spec fn node_size(n: Node) -> nat
    decreases n,
{
    match n {
        Node::Element(e) => 1 + forest_size_from(e.children@, 0),
        _ => 1,
    }
}

/// The number of nodes in the trees `s[i..]`.
pub open spec fn forest_size_from(s: Seq<Node>, i: int) -> nat
    decreases s, s.len() - i,
{
    if 0 <= i < s.len() {
        node_size(s[i]) + forest_size_from(s, i + 1)
    } else {
        0
    }
}

#[verifier::external_type_specification]
#[verifier::external_body]
pub struct ExParsedNode(ParsedNode);

/// Relies on html_parser's `Node` and `Element`: copies one parsed node, with
/// its whole subtree, into the library's own tree. Attributes come in the
/// order in which the parser's map hands them out.
#[verifier::external_body]
fn from_parsed(node: &ParsedNode) -> Node {
    match node {
        ParsedNode::Text(t) => Node::Text(t.clone()),
        ParsedNode::Comment(t) => Node::Comment(t.clone()),
        ParsedNode::Element(e) => Node::Element(Element {
            name: e.name.clone(),
            id: e.id.clone(),
            classes: e.classes.clone(),
            attributes: e.attributes.iter().map(|(k, v)| (k.clone(), v.clone())).collect(),
            children: e.children.iter().map(from_parsed).collect(),
        }),
    }
}

/// Whether html_parser accepts `s` as HTML. Its verdict depends on the text alone.
pub uninterp spec fn html_parses(s: Seq<char>) -> bool;

/// Relies on html_parser::Dom::parse: the top-level nodes of an HTML fragment,
/// or `None` where the parser refuses the text.
#[verifier::external_body]
pub(crate) fn parse_fragment(source: &str) -> (r: Option<Vec<Node>>)
    ensures
        r is Some <==> html_parses(source@),
{
    html_parser::Dom::parse(source).ok().map(|dom| dom.children.iter().map(from_parsed).collect())
}

}
