use vstd::multiset::Multiset;
use vstd::prelude::*;
use vstd::seq_lib::{to_multiset_build, to_multiset_insert};

use crate::dom::{forest_size_from, node_size, Element, Node};

verus! {

/// Lexicographic order on character sequences.
pub open spec fn chars_le(a: Seq<char>, b: Seq<char>) -> bool
    decreases a.len(),
{
    if a.len() == 0 {
        true
    } else if b.len() == 0 {
        false
    } else if a[0] != b[0] {
        a[0] < b[0]
    } else {
        chars_le(a.skip(1), b.skip(1))
    }
}

proof fn lemma_chars_le_total(a: Seq<char>, b: Seq<char>)
    ensures
        chars_le(a, b) || chars_le(b, a),
    decreases a.len(),
{
    if a.len() > 0 && b.len() > 0 && a[0] == b[0] {
        lemma_chars_le_total(a.skip(1), b.skip(1));
    }
}

/// Attributes listed by name, each name no later than the next.
pub open spec fn attributes_sorted(s: Seq<(String, Option<String>)>) -> bool {
    forall|i: int| 0 <= i < s.len() - 1 ==> chars_le(#[trigger] s[i].0@, s[i + 1].0@)
}

/// Every element of the tree `n` lists its attributes by name.
pub open spec fn attributes_ordered(n: Node) -> bool
    decreases n,
{
    match n {
        Node::Element(e) => attributes_sorted(e.attributes@) && forest_ordered_from(e.children@, 0),
        _ => true,
    }
}

pub open spec fn forest_ordered_from(s: Seq<Node>, i: int) -> bool
    decreases s, s.len() - i,
{
    if 0 <= i < s.len() {
        attributes_ordered(s[i]) && forest_ordered_from(s, i + 1)
    } else {
        true
    }
}

/// `a` and `b` are the same tree, but that an element's attributes may stand
/// in another order.
pub open spec fn same_up_to_attribute_order(a: Node, b: Node) -> bool
    decreases a,
{
    match a {
        Node::Element(e) => match b {
            Node::Element(f) => {
                &&& e.name == f.name
                &&& e.id == f.id
                &&& e.classes@ == f.classes@
                &&& e.attributes@.to_multiset() == f.attributes@.to_multiset()
                &&& e.children@.len() == f.children@.len()
                &&& forest_same_from(e.children@, f.children@, 0)
            },
            _ => false,
        },
        _ => b == a,
    }
}

pub open spec fn forest_same_from(s: Seq<Node>, t: Seq<Node>, i: int) -> bool
    decreases s, s.len() - i,
{
    if 0 <= i < s.len() {
        same_up_to_attribute_order(s[i], t[i]) && forest_same_from(s, t, i + 1)
    } else {
        true
    }
}

proof fn lemma_forest_from_all(s: Seq<Node>, t: Seq<Node>, i: int)
    requires
        0 <= i <= s.len(),
        s.len() == t.len(),
        forall|j: int| 0 <= j < s.len() ==> same_up_to_attribute_order(#[trigger] s[j], t[j])
            && attributes_ordered(t[j]),
    ensures
        forest_same_from(s, t, i),
        forest_ordered_from(t, i),
    decreases s.len() - i,
{
    if i < s.len() {
        lemma_forest_from_all(s, t, i + 1);
        assert(same_up_to_attribute_order(s[i], t[i]) && attributes_ordered(t[i]));
    }
}

proof fn lemma_child_smaller(s: Seq<Node>, i: int, j: int)
    requires
        0 <= i <= j < s.len(),
    ensures
        node_size(s[j]) <= forest_size_from(s, i),
    decreases j - i,
{
    if i < j {
        lemma_child_smaller(s, i + 1, j);
    }
}

fn name_le(a: &String, b: &String) -> (r: bool)
    ensures
        r == chars_le(a@, b@),
{
    let a = a.as_str();
    let b = b.as_str();
    let n = a.unicode_len();
    let m = b.unicode_len();
    let mut i: usize = 0;
    assert(a@.skip(0) =~= a@);
    assert(b@.skip(0) =~= b@);
    while i < n && i < m && a.get_char(i) == b.get_char(i)
        invariant
            n == a@.len(),
            m == b@.len(),
            i <= n,
            i <= m,
            chars_le(a@.skip(i as int), b@.skip(i as int)) == chars_le(a@, b@),
        decreases n - i,
    {
        proof {
            assert(a@.skip(i as int).skip(1) =~= a@.skip(i + 1));
            assert(b@.skip(i as int).skip(1) =~= b@.skip(i + 1));
        }
        i = i + 1;
    }
    if i == n {
        true
    } else if i == m {
        false
    } else {
        a.get_char(i) < b.get_char(i)
    }
}

proof fn lemma_empty_multiset(s: Seq<(String, Option<String>)>)
    requires
        s.len() == 0,
    ensures
        s.to_multiset() =~= Multiset::empty(),
{
    broadcast use vstd::seq_lib::to_multiset_len, vstd::multiset::lemma_multiset_empty_len;

    assert(s.to_multiset().len() == 0);
}

proof fn lemma_insert_sorted(s: Seq<(String, Option<String>)>, p: int, x: (String, Option<String>))
    requires
        attributes_sorted(s),
        0 <= p <= s.len(),
        p > 0 ==> chars_le(s[p - 1].0@, x.0@),
        p < s.len() ==> chars_le(x.0@, s[p].0@),
    ensures
        attributes_sorted(s.insert(p, x)),
{
    let t = s.insert(p, x);
    assert forall|i: int| 0 <= i < t.len() - 1 implies chars_le(#[trigger] t[i].0@, t[i + 1].0@) by {
        if i + 1 < p {
            assert(t[i] == s[i] && t[i + 1] == s[i + 1]);
        } else if i + 1 == p {
            assert(t[i] == s[i] && t[i + 1] == x);
        } else if i == p {
            assert(t[i] == x && t[i + 1] == s[i]);
        } else {
            assert(t[i] == s[i - 1] && t[i + 1] == s[i]);
        }
    }
}

/// The same attributes, listed by name.
pub fn sort_attributes(attributes: Vec<(String, Option<String>)>) -> (r: Vec<(String, Option<String>)>)
    ensures
        r@.to_multiset() == attributes@.to_multiset(),
        attributes_sorted(r@),
{
    let mut rest = attributes;
    let mut out: Vec<(String, Option<String>)> = Vec::new();
    proof {
        lemma_empty_multiset(out@);
        assert(out@.to_multiset().add(rest@.to_multiset()) =~= attributes@.to_multiset());
    }
    while rest.len() > 0
        invariant
            out@.to_multiset().add(rest@.to_multiset()) == attributes@.to_multiset(),
            attributes_sorted(out@),
        decreases rest@.len(),
    {
        let ghost rest0 = rest@;
        let x = rest.pop().unwrap();
        proof {
            to_multiset_build(rest@, x);
            assert(rest@.push(x) =~= rest0);
        }
        let ghost out0 = out@;
        let mut p: usize = out.len();
        while p > 0 && !name_le(&out[p - 1].0, &x.0)
            invariant
                out@ == out0,
                p <= out@.len(),
                p < out@.len() ==> chars_le(x.0@, out@[p as int].0@),
            decreases p,
        {
            proof {
                lemma_chars_le_total(out@[p - 1].0@, x.0@);
            }
            p = p - 1;
        }
        proof {
            to_multiset_insert(out0, p as int, x);
            lemma_insert_sorted(out0, p as int, x);
        }
        out.insert(p, x);
        assert(out@.to_multiset().add(rest@.to_multiset()) =~= attributes@.to_multiset());
    }
    proof {
        lemma_empty_multiset(rest@);
        assert(out@.to_multiset().add(rest@.to_multiset()) =~= out@.to_multiset());
    }
    out
}

/// The tree `node` with every element's attributes listed by name, so that
/// the order in which a parser handed them out no longer shows.
pub fn order_attributes(node: Node) -> (r: Node)
    ensures
        same_up_to_attribute_order(node, r),
        attributes_ordered(r),
    decreases node_size(node),
{
    let ghost whole = node;
    match node {
        Node::Element(e) => {
            let Element { name, id, classes, attributes, children } = e;
            let attributes = sort_attributes(attributes);
            let ghost orig = children@;
            proof {
                assert forall|j: int| 0 <= j < orig.len() implies node_size(#[trigger] orig[j])
                    < node_size(whole) by {
                    lemma_child_smaller(orig, 0, j);
                }
            }
            let mut rest = children;
            let mut kids: Vec<Node> = Vec::new();
            while rest.len() > 0
                invariant
                    kids@.len() + rest@.len() == orig.len(),
                    node_size(whole) == node_size(node),
                    rest@ == orig.skip(kids@.len() as int),
                    forall|j: int| 0 <= j < orig.len() ==> node_size(#[trigger] orig[j]) < node_size(whole),
                    forall|j: int| 0 <= j < kids@.len() ==> same_up_to_attribute_order(
                        #[trigger] orig[j],
                        kids@[j],
                    ) && attributes_ordered(kids@[j]),
                decreases rest@.len(),
            {
                let ghost k = kids@.len() as int;
                let child = rest.remove(0);
                assert(child == orig[k]);
                assert(rest@ =~= orig.skip(k + 1));
                let done = order_attributes(child);
                let ghost kids0 = kids@;
                kids.push(done);
                assert forall|j: int| 0 <= j < kids@.len() implies same_up_to_attribute_order(
                    #[trigger] orig[j],
                    kids@[j],
                ) && attributes_ordered(kids@[j]) by {
                    if j < k {
                        assert(kids@[j] == kids0[j]);
                    }
                }
            }
            proof {
                lemma_forest_from_all(orig, kids@, 0);
            }
            Node::Element(Element { name, id, classes, attributes, children: kids })
        },
        other => other,
    }
}

/// Lists the attributes of every element of `nodes` by name.
pub fn order_all(nodes: Vec<Node>) -> (r: Vec<Node>)
    ensures
        r@.len() == nodes@.len(),
        forall|j: int| 0 <= j < nodes@.len() ==> same_up_to_attribute_order(
            #[trigger] nodes@[j],
            r@[j],
        ),
        forall|j: int| 0 <= j < r@.len() ==> attributes_ordered(#[trigger] r@[j]),
{
    let ghost orig = nodes@;
    let mut rest = nodes;
    let mut out: Vec<Node> = Vec::new();
    while rest.len() > 0
        invariant
            out@.len() + rest@.len() == orig.len(),
            rest@ == orig.skip(out@.len() as int),
            forall|j: int| 0 <= j < out@.len() ==> same_up_to_attribute_order(
                #[trigger] orig[j],
                out@[j],
            ) && attributes_ordered(out@[j]),
        decreases rest@.len(),
    {
        let ghost k = out@.len() as int;
        let first = rest.remove(0);
        assert(first == orig[k]);
        assert(rest@ =~= orig.skip(k + 1));
        let done = order_attributes(first);
        assert(same_up_to_attribute_order(orig[k], done) && attributes_ordered(done));
        let ghost out0 = out@;
        out.push(done);
        assert(out@ =~= out0.push(done));
        assert forall|j: int| 0 <= j < out@.len() implies same_up_to_attribute_order(
            #[trigger] orig[j],
            out@[j],
        ) && attributes_ordered(out@[j]) by {
            if j < k {
                assert(out@[j] == out0[j]);
            } else {
                assert(out@[j] == done);
                assert(orig[j] == orig[k]);
            }
        }
    }
    assert forall|j: int| 0 <= j < out@.len() implies attributes_ordered(#[trigger] out@[j]) by {
        assert(same_up_to_attribute_order(orig[j], out@[j]));
    }
    out
}

}
