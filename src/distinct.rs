use vstd::prelude::*;

use crate::dom::Node;
use crate::sanitizer::{canonical, identifier, mark_of};
use crate::scriptifier::base_of;
use crate::text::{decimal, digit_char};
use crate::walker::{children_of, finished, start, step, walk, Walk};

verus! {

pub open spec fn is_digit(c: char) -> bool {
    '0' <= c && c <= '9'
}

pub open spec fn ends_with_digit(s: Seq<char>) -> bool {
    s.len() > 0 && is_digit(s.last())
}

/// A canonical name that keeps identifiers apart: a count appended to it can
/// be told from the name itself, and it is not the root container's name.
pub open spec fn separable(name: Seq<char>) -> bool {
    !ends_with_digit(name) && name != "root"@
}

/// Every node of the tree `n` is named from a separable canonical name.
pub open spec fn names_separable(n: Node) -> bool
    decreases n,
{
    separable(canonical(base_of(n))) && match n {
        Node::Element(e) => forest_separable_from(e.children@, 0),
        _ => true,
    }
}

/// Every node of the trees `s[i..]` is named from a separable canonical name.
pub open spec fn forest_separable_from(s: Seq<Node>, i: int) -> bool
    decreases s, s.len() - i,
{
    if 0 <= i < s.len() {
        names_separable(s[i]) && forest_separable_from(s, i + 1)
    } else {
        true
    }
}

proof fn lemma_forest_separable(s: Seq<Node>, i: int, j: int)
    requires
        0 <= i <= j < s.len(),
        forest_separable_from(s, i),
    ensures
        names_separable(s[j]),
    decreases j - i,
{
    if i < j {
        lemma_forest_separable(s, i + 1, j);
    }
}

/// The value of a run of decimal digits.
pub open spec fn digits_value(d: Seq<char>) -> nat
    decreases d.len(),
{
    if d.len() == 0 {
        0
    } else {
        digits_value(d.drop_last()) * 10 + (d.last() as nat - '0' as nat) as nat
    }
}

/// `s` cut before its trailing digits, and those digits.
pub open spec fn strip_digits(s: Seq<char>) -> (Seq<char>, Seq<char>)
    decreases s.len(),
{
    if ends_with_digit(s) {
        let (p, d) = strip_digits(s.drop_last());
        (p, d.push(s.last()))
    } else {
        (s, Seq::empty())
    }
}

/// The name and the count that an identifier was made from.
pub open spec fn split_identifier(s: Seq<char>) -> (Seq<char>, nat) {
    let (p, d) = strip_digits(s);
    if d.len() == 0 { (p, 1) } else { (p, digits_value(d)) }
}

/// An identifier made from `name` and the count `mark`.
pub open spec fn numbered(name: Seq<char>, mark: nat) -> Seq<char> {
    if mark == 1 { name } else { name + decimal(mark) }
}

proof fn lemma_decimal_digits(n: nat)
    ensures
        decimal(n).len() > 0,
        forall|i: int| 0 <= i < decimal(n).len() ==> is_digit(#[trigger] decimal(n)[i]),
        digits_value(decimal(n)) == n,
    decreases n,
{
    if n >= 10 {
        lemma_decimal_digits(n / 10);
        assert(decimal(n).drop_last() =~= decimal(n / 10));
    } else {
        assert(decimal(n).drop_last() =~= Seq::<char>::empty());
    }
    let d = n % 10;
    assert(digit_char(d) as nat - '0' as nat == d);
    assert(decimal(n).last() == digit_char(d));
    vstd::arithmetic::div_mod::lemma_fundamental_div_mod(n as int, 10);
    assert(digits_value(decimal(n)) == digits_value(decimal(n).drop_last()) * 10 + d);
    if n >= 10 {
        assert(digits_value(decimal(n).drop_last()) == n / 10);
    } else {
        assert(digits_value(decimal(n).drop_last()) == 0);
    }
}

proof fn lemma_strip_digits(a: Seq<char>, d: Seq<char>)
    requires
        !ends_with_digit(a),
        forall|i: int| 0 <= i < d.len() ==> is_digit(#[trigger] d[i]),
    ensures
        strip_digits(a + d) == (a, d),
    decreases d.len(),
{
    if d.len() == 0 {
        assert(a + d =~= a);
    } else {
        assert((a + d).drop_last() =~= a + d.drop_last());
        lemma_strip_digits(a, d.drop_last());
        assert(d.drop_last().push(d.last()) =~= d);
    }
}

proof fn lemma_split_numbered(name: Seq<char>, mark: nat)
    requires
        !ends_with_digit(name),
        mark >= 1,
    ensures
        split_identifier(numbered(name, mark)) == (name, mark),
{
    if mark == 1 {
        assert(strip_digits(name) == (name, Seq::<char>::empty()));
    } else {
        lemma_decimal_digits(mark);
        lemma_strip_digits(name, decimal(mark));
    }
}

/// What holds of a walk whose identifiers are all distinct.
pub open spec fn walk_separable(w: Walk) -> bool {
    &&& forall|j: int| 0 <= j < w.queue.len() ==> names_separable(#[trigger] w.queue[j].1)
    &&& forall|k: int| 0 <= k < w.links.len() ==> {
        let (name, mark) = #[trigger] split_identifier(w.links[k].1);
        &&& separable(name)
        &&& 1 <= mark <= mark_of(w.registry, name)
        &&& numbered(name, mark) == w.links[k].1
    }
    &&& forall|k: int, l: int| 0 <= k < l < w.links.len() ==> w.links[k].1 != w.links[l].1
    &&& forall|k: int| 0 <= k < w.links.len() ==> w.links[k].1 != "root"@
}

proof fn lemma_step_separable(w: Walk)
    requires
        walk_separable(w),
    ensures
        walk_separable(step(w)),
{
    if w.queue.len() > 0 {
        let (parent, n) = w.queue[0];
        let c = canonical(base_of(n));
        let m = mark_of(w.registry, c) + 1;
        let ident = identifier(w.registry, base_of(n));
        let w1 = step(w);
        assert(names_separable(w.queue[0].1));
        assert(ident == numbered(c, m));
        lemma_split_numbered(c, m);
        assert forall|j: int| 0 <= j < w1.queue.len() implies names_separable(#[trigger] w1.queue[j].1) by {
            if j < w.queue.len() - 1 {
                assert(w1.queue[j] == w.queue[j + 1]);
            } else {
                let i = j - (w.queue.len() - 1);
                assert(w1.queue[j] == children_of(ident, n)[i]);
                match n {
                    Node::Element(e) => {
                        assert(names_separable(n));
                        lemma_forest_separable(e.children@, 0, i);
                        assert(children_of(ident, n).len() == e.children@.len());
                        assert(0 <= i < e.children@.len());
                        assert(names_separable(e.children@[i]));
                    },
                    _ => {},
                }
            }
        }
        assert forall|k: int| 0 <= k < w1.links.len() implies {
            let (name, mark) = #[trigger] split_identifier(w1.links[k].1);
            &&& separable(name)
            &&& 1 <= mark <= mark_of(w1.registry, name)
            &&& numbered(name, mark) == w1.links[k].1
        } by {
            if k < w.links.len() {
                assert(w1.links[k] == w.links[k]);
                let (name, mark) = split_identifier(w.links[k].1);
                assert(mark <= mark_of(w.registry, name));
            }
        }
        reveal_strlit("root");
        assert(split_identifier("root"@) == ("root"@, 1nat)) by {
            assert(!ends_with_digit("root"@));
        }
        assert forall|k: int| 0 <= k < w.links.len() implies w.links[k].1 != ident by {
            let (name, mark) = split_identifier(w.links[k].1);
            assert(mark <= mark_of(w.registry, name));
        }
        assert forall|k: int, l: int| 0 <= k < l < w1.links.len() implies w1.links[k].1 != w1.links[l].1 by {
            if l < w.links.len() {
                assert(w1.links[k] == w.links[k]);
                assert(w1.links[l] == w.links[l]);
            } else {
                assert(w1.links[k] == w.links[k]);
            }
        }
        assert forall|k: int| 0 <= k < w1.links.len() implies w1.links[k].1 != "root"@ by {
            if k < w.links.len() {
                assert(w1.links[k] == w.links[k]);
            }
        }
    }
}

proof fn lemma_walk_separable(w: Walk, k: nat)
    requires
        walk_separable(w),
    ensures
        walk_separable(walk(w, k)),
    decreases k,
{
    if k > 0 {
        lemma_step_separable(w);
        lemma_walk_separable(step(w), (k - 1) as nat);
    }
}

/// In a tree whose canonical names neither end in a digit nor are `root`,
/// every node's variable has a name of its own, and none is `root`.
pub proof fn lemma_identifiers_distinct(nodes: Seq<Node>)
    requires
        forall|j: int| 0 <= j < nodes.len() ==> names_separable(#[trigger] nodes[j]),
    ensures
        forall|k: int, l: int| 0 <= k < l < finished(nodes).links.len() ==>
            finished(nodes).links[k].1 != finished(nodes).links[l].1,
        forall|k: int| 0 <= k < finished(nodes).links.len() ==>
            finished(nodes).links[k].1 != "root"@,
{
    let w = start(nodes);
    assert forall|j: int| 0 <= j < w.queue.len() implies names_separable(#[trigger] w.queue[j].1) by {
        assert(w.queue[j].1 == nodes[j]);
    }
    assert(walk_separable(w));
    lemma_walk_separable(w, crate::walker::queued_size(w.queue));
}

}
