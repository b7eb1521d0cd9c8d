use vstd::prelude::*;
use vstd::string::*;

use crate::dom::{views, Element, Node};
use crate::sanitizer::{canonical, identifier, mark_of, registered, Sanitizer};
use crate::text::{escape, push_escaped, same_chars, starts_with};

verus! {

/// `items` written one after another with `sep` between each two.
pub open spec fn join(items: Seq<Seq<char>>, sep: Seq<char>) -> Seq<char>
    decreases items.len(),
{
    if items.len() == 0 {
        Seq::empty()
    } else if items.len() == 1 {
        items[0]
    } else {
        join(items.drop_last(), sep) + sep + items.last()
    }
}

/// The name a node's variable is made from.
pub open spec fn base_of(n: Node) -> Seq<char> {
    match n {
        Node::Text(_) => "text"@,
        Node::Comment(_) => "comment"@,
        Node::Element(e) => element_base(e),
    }
}

/// An element's variable is named after its id, or else its tag.
pub open spec fn element_base(e: Element) -> Seq<char> {
    match e.id {
        Some(i) => i@,
        None => e.name@,
    }
}

pub open spec fn text_line(ident: Seq<char>, text: Seq<char>) -> Seq<char> {
    "const "@ + ident + " = document.createTextNode('"@ + escape(text) + "');"@
}

pub open spec fn comment_line(ident: Seq<char>, text: Seq<char>) -> Seq<char> {
    "const "@ + ident + " = document.createComment('"@ + escape(text) + "');"@
}

pub open spec fn create_line(ident: Seq<char>, tag: Seq<char>) -> Seq<char> {
    "const "@ + ident + " = document.createElement('"@ + tag + "');"@
}

pub open spec fn class_line(ident: Seq<char>, classes: Seq<Seq<char>>) -> Seq<char> {
    ident + ".classList.add('"@ + join(classes, "', '"@) + "');"@
}

/// The value of an attribute as written: an absent value is empty.
pub open spec fn value_of(v: Option<String>) -> Seq<char> {
    match v {
        Some(s) => s@,
        None => Seq::empty(),
    }
}

/// The statement that sets one attribute: `style` as style text, `data-*`
/// through the dataset, any other through `setAttribute`.
pub open spec fn attribute_line(ident: Seq<char>, name: Seq<char>, value: Seq<char>) -> Seq<char> {
    if name == "style"@ {
        ident + ".style.cssText = '"@ + value + "';"@
    } else if "data-"@.len() <= name.len() && name.subrange(0, "data-"@.len() as int) == "data-"@ {
        ident + ".dataset."@ + name + " = '"@ + value + "';"@
    } else {
        ident + ".setAttribute('"@ + name + "', '"@ + value + "');"@
    }
}

pub open spec fn attribute_lines(ident: Seq<char>, attributes: Seq<(String, Option<String>)>) -> Seq<Seq<char>> {
    Seq::new(
        attributes.len(),
        |k: int| attribute_line(ident, attributes[k].0@, value_of(attributes[k].1)),
    )
}

pub open spec fn element_lines(ident: Seq<char>, e: Element) -> Seq<Seq<char>> {
    seq![create_line(ident, e.name@)]
        + (if e.classes@.len() > 0 { seq![class_line(ident, views(e.classes@))] } else { Seq::empty() })
        + attribute_lines(ident, e.attributes@)
}

/// The statements that build node `n` in a variable named `ident`.
pub open spec fn node_lines(ident: Seq<char>, n: Node) -> Seq<Seq<char>> {
    match n {
        Node::Text(t) => seq![text_line(ident, t@)],
        Node::Comment(t) => seq![comment_line(ident, t@)],
        Node::Element(e) => element_lines(ident, e),
    }
}

fn join_classes(items: &Vec<String>) -> (r: String)
    ensures
        r@ == join(views(items@), "', '"@),
{
    let mut out = String::new();
    let mut i: usize = 0;
    while i < items.len()
        invariant
            i <= items@.len(),
            out@ == join(views(items@).take(i as int), "', '"@),
        decreases items@.len() - i,
    {
        proof {
            assert(views(items@).take(i + 1).drop_last() =~= views(items@).take(i as int));
        }
        if i > 0 {
            out.append("', '");
        }
        out.append(items[i].as_str());
        proof {
            if i == 0 {
                assert(out@ =~= views(items@).take(1)[0]);
            }
        }
        i = i + 1;
    }
    assert(views(items@).take(items@.len() as int) =~= views(items@));
    out
}

fn attribute_statement(ident: &str, name: &str, value: &str) -> (r: String)
    ensures
        r@ == attribute_line(ident@, name@, value@),
{
    let mut line = String::from_str(ident);
    if same_chars(name, "style") {
        line.append(".style.cssText = '");
        line.append(value);
        line.append("';");
    } else if starts_with(name, "data-") {
        line.append(".dataset.");
        line.append(name);
        line.append(" = '");
        line.append(value);
        line.append("';");
    } else {
        line.append(".setAttribute('");
        line.append(name);
        line.append("', '");
        line.append(value);
        line.append("');");
    }
    line
}

/// Turns single nodes into statements, naming each node's variable.
pub struct NodeScriptifier {
    sanitizer: Sanitizer,
}

impl NodeScriptifier {
    /// The names handed out so far, with their counts.
    pub closed spec fn registry(&self) -> Map<Seq<char>, nat> {
        self.sanitizer.registry()
    }

    pub closed spec fn wf(&self) -> bool {
        self.sanitizer.wf()
    }

    pub fn new() -> (r: NodeScriptifier)
        ensures
            r.wf(),
            r.registry() == Map::<Seq<char>, nat>::empty(),
    {
        NodeScriptifier { sanitizer: Sanitizer::new() }
    }

    pub fn scriptify_text(&mut self, text: &str) -> (r: (String, Vec<String>))
        requires
            old(self).wf(),
            mark_of(old(self).registry(), canonical("text"@)) < u64::MAX,
        ensures
            final(self).wf(),
            final(self).registry() == registered(old(self).registry(), "text"@),
            r.0@ == identifier(old(self).registry(), "text"@),
            views(r.1@) == seq![text_line(r.0@, text@)],
    {
        let sanitized = self.sanitizer.sanitize_name("text");
        let mut line = String::from_str("const ");
        line.append(sanitized.as_str());
        line.append(" = document.createTextNode('");
        push_escaped(&mut line, text);
        line.append("');");
        let mut result: Vec<String> = Vec::new();
        result.push(line);
        assert(views(result@) =~= seq![text_line(sanitized@, text@)]);
        (sanitized, result)
    }

    pub fn scriptify_comment(&mut self, comment: &str) -> (r: (String, Vec<String>))
        requires
            old(self).wf(),
            mark_of(old(self).registry(), canonical("comment"@)) < u64::MAX,
        ensures
            final(self).wf(),
            final(self).registry() == registered(old(self).registry(), "comment"@),
            r.0@ == identifier(old(self).registry(), "comment"@),
            views(r.1@) == seq![comment_line(r.0@, comment@)],
    {
        let name = self.sanitizer.sanitize_name("comment");
        let mut line = String::from_str("const ");
        line.append(name.as_str());
        line.append(" = document.createComment('");
        push_escaped(&mut line, comment);
        line.append("');");
        let mut result: Vec<String> = Vec::new();
        result.push(line);
        assert(views(result@) =~= seq![comment_line(name@, comment@)]);
        (name, result)
    }

    pub fn scriptify_element(&mut self, element: &Element) -> (r: (String, Vec<String>))
        requires
            old(self).wf(),
            mark_of(old(self).registry(), canonical(element_base(*element))) < u64::MAX,
        ensures
            final(self).wf(),
            final(self).registry() == registered(old(self).registry(), element_base(*element)),
            r.0@ == identifier(old(self).registry(), element_base(*element)),
            views(r.1@) == element_lines(r.0@, *element),
    {
        let name = match &element.id {
            Some(node_id) => node_id.as_str(),
            None => element.name.as_str(),
        };
        let sanitized = self.sanitizer.sanitize_name(name);
        let ghost ident = sanitized@;
        let mut result: Vec<String> = Vec::new();
        let mut line = String::from_str("const ");
        line.append(sanitized.as_str());
        line.append(" = document.createElement('");
        line.append(element.name.as_str());
        line.append("');");
        result.push(line);
        if element.classes.len() > 0 {
            let mut line = sanitized.clone();
            line.append(".classList.add('");
            let joined = join_classes(&element.classes);
            line.append(joined.as_str());
            line.append("');");
            result.push(line);
        }
        let ghost head = views(result@);
        assert(head =~= seq![create_line(ident, element.name@)] + (if element.classes@.len() > 0 {
            seq![class_line(ident, views(element.classes@))]
        } else {
            Seq::empty()
        }));
        let mut k: usize = 0;
        while k < element.attributes.len()
            invariant
                k <= element.attributes@.len(),
                sanitized@ == ident,
                views(result@) == head + attribute_lines(ident, element.attributes@).take(k as int),
            decreases element.attributes@.len() - k,
        {
            let attribute = &element.attributes[k];
            let value = match &attribute.1 {
                Some(v) => v.as_str(),
                None => "",
            };
            proof {
                reveal_strlit("");
                if attribute.1 is None {
                    assert(value@ =~= Seq::<char>::empty());
                }
            }
            let line = attribute_statement(sanitized.as_str(), attribute.0.as_str(), value);
            let ghost before = result@;
            result.push(line);
            assert(views(result@) =~= views(before).push(line@));
            assert(attribute_lines(ident, element.attributes@).take(k + 1) =~= attribute_lines(
                ident,
                element.attributes@,
            ).take(k as int).push(line@));
            k = k + 1;
        }
        assert(attribute_lines(ident, element.attributes@).take(k as int) =~= attribute_lines(
            ident,
            element.attributes@,
        ));
        assert(views(result@) =~= element_lines(ident, *element));
        (sanitized, result)
    }

    /// The variable name and the statements that build `node`.
    pub fn scriptify(&mut self, node: &Node) -> (r: (String, Vec<String>))
        requires
            old(self).wf(),
            mark_of(old(self).registry(), canonical(base_of(*node))) < u64::MAX,
        ensures
            final(self).wf(),
            final(self).registry() == registered(old(self).registry(), base_of(*node)),
            r.0@ == identifier(old(self).registry(), base_of(*node)),
            views(r.1@) == node_lines(r.0@, *node),
    {
        match node {
            Node::Text(text) => self.scriptify_text(text.as_str()),
            Node::Element(element) => self.scriptify_element(element),
            Node::Comment(text) => self.scriptify_comment(text.as_str()),
        }
    }
}

/// An element's attribute statements follow its attributes in order, after
/// the creation statement and the class statement, if any.
pub proof fn lemma_attributes_in_order(ident: Seq<char>, e: Element, k: int)
    requires
        0 <= k < e.attributes@.len(),
    ensures
        ({
            let offset: int = if e.classes@.len() > 0 { 2 } else { 1 };
            &&& element_lines(ident, e).len() == offset + e.attributes@.len()
            &&& element_lines(ident, e)[offset + k] == attribute_line(
                ident,
                e.attributes@[k].0@,
                value_of(e.attributes@[k].1),
            )
        }),
{
}

}
