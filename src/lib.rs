use vstd::prelude::*;

pub mod distinct;
pub mod dom;
pub mod order;
pub mod sanitizer;
pub mod scriptifier;
pub mod text;
pub mod walker;

pub use dom::{Element, Node};
pub use sanitizer::Sanitizer;
pub use scriptifier::NodeScriptifier;
pub use walker::translate;

use dom::html_parses;
use order::attributes_ordered;
use walker::translation;

verus! {

/// Turns HTML fragments into a function that rebuilds them through the DOM.
pub struct HTMLScriptifier {}

impl HTMLScriptifier {
    pub fn new() -> (r: HTMLScriptifier)
        ensures
            r == (HTMLScriptifier {}),
    {
        HTMLScriptifier {}
    }

    /// Parses `source` and writes the function that rebuilds it; `None` where
    /// the parser refuses the text. Attributes are written in name order, so
    /// the parser's own order does not show. Each call starts from a fresh
    /// registry.
    pub fn scriptify_html(&mut self, source: &str) -> (r: Option<String>)
        ensures
            r is Some <==> html_parses(source@),
            r matches Some(js) ==> exists|nodes: Seq<Node>|
                (forall|j: int| 0 <= j < nodes.len() ==> attributes_ordered(#[trigger] nodes[j]))
                    && js@ == translation(nodes),
    {
        match dom::parse_fragment(source) {
            Some(nodes) => {
                let ordered = order::order_all(nodes);
                let js = translate(&ordered);
                assert(forall|j: int| 0 <= j < ordered@.len() ==> attributes_ordered(#[trigger] ordered@[j]));
                Some(js)
            },
            None => None,
        }
    }
}

impl Default for HTMLScriptifier {
    fn default() -> (r: HTMLScriptifier)
        ensures
            r == (HTMLScriptifier {}),
    {
        HTMLScriptifier::new()
    }
}

/// The function that rebuilds the HTML fragment `html_code`, or `None` where it
/// cannot be parsed.
pub fn html_to_js(html_code: String) -> (r: Option<String>)
    ensures
        r is Some <==> html_parses(html_code@),
        r matches Some(js) ==> exists|nodes: Seq<Node>|
            (forall|j: int| 0 <= j < nodes.len() ==> attributes_ordered(#[trigger] nodes[j]))
                && js@ == translation(nodes),
{
    HTMLScriptifier::new().scriptify_html(html_code.as_str())
}

}
