use vstd::prelude::*;
use vstd::string::*;

use crate::dom::{forest_size_from, node_size, views, Node};
use crate::sanitizer::{identifier, mark_of, registered};
use crate::scriptifier::{base_of, node_lines, NodeScriptifier};

verus! {

/// Where a translation stands between two nodes.
pub struct Walk {
    /// The names handed out so far, with their counts.
    pub registry: Map<Seq<char>, nat>,
    /// Nodes still to visit, each with the variable of its parent.
    pub queue: Seq<(Seq<char>, Node)>,
    /// The statements written so far.
    pub body: Seq<Seq<char>>,
    /// The (parent, child) pairs recorded so far.
    pub links: Seq<(Seq<char>, Seq<char>)>,
}

/// The children of `n`, each paired with `parent`.
pub open spec fn children_of(parent: Seq<char>, n: Node) -> Seq<(Seq<char>, Node)> {
    match n {
        Node::Element(e) => Seq::new(e.children@.len(), |j: int| (parent, e.children@[j])),
        _ => Seq::empty(),
    }
}

/// The walk before any node is visited: every top-level node waits under `root`.
pub open spec fn start(nodes: Seq<Node>) -> Walk {
    Walk {
        registry: Map::empty(),
        queue: Seq::new(nodes.len(), |j: int| ("root"@, nodes[j])),
        body: Seq::empty(),
        links: Seq::empty(),
    }
}

/// Visits the first waiting node: names it, writes its statements after a
/// blank line, queues its children behind the others and records its link.
pub open spec fn step(w: Walk) -> Walk {
    if w.queue.len() == 0 {
        w
    } else {
        let (parent, n) = w.queue[0];
        let ident = identifier(w.registry, base_of(n));
        Walk {
            registry: registered(w.registry, base_of(n)),
            queue: w.queue.skip(1) + children_of(ident, n),
            body: w.body + seq![Seq::empty()] + node_lines(ident, n),
            links: w.links.push((parent, ident)),
        }
    }
}

/// The walk after `k` visits.
pub open spec fn walk(w: Walk, k: nat) -> Walk
    decreases k,
{
    if k == 0 {
        w
    } else {
        walk(step(w), (k - 1) as nat)
    }
}

/// The number of nodes in the trees that wait in `q`.
pub open spec fn queued_size(q: Seq<(Seq<char>, Node)>) -> nat
    decreases q.len(),
{
    if q.len() == 0 {
        0
    } else {
        node_size(q[0].1) + queued_size(q.skip(1))
    }
}

pub open spec fn link_line(l: (Seq<char>, Seq<char>)) -> Seq<char> {
    l.0 + ".appendChild("@ + l.1 + ");"@
}

/// One append statement per link, with a blank line before the first and
/// wherever the parent changes.
pub open spec fn link_lines(links: Seq<(Seq<char>, Seq<char>)>) -> Seq<Seq<char>>
    decreases links.len(),
{
    if links.len() == 0 {
        Seq::empty()
    } else {
        let k = links.len() - 1;
        let gap = if k == 0 || links[k - 1].0 != links[k].0 {
            seq![Seq::<char>::empty()]
        } else {
            Seq::empty()
        };
        link_lines(links.drop_last()) + gap + seq![link_line(links[k])]
    }
}

pub open spec fn root_line() -> Seq<char> {
    "const root = document.createElement('div');"@
}

/// Every statement of the generated function, in order.
pub open spec fn program_lines(body: Seq<Seq<char>>, links: Seq<(Seq<char>, Seq<char>)>) -> Seq<Seq<char>> {
    seq![Seq::empty(), root_line()] + body + link_lines(links) + seq![
        Seq::empty(),
        "return root;"@,
    ]
}

/// Each line after four spaces, and ended by a newline.
pub open spec fn indented(lines: Seq<Seq<char>>) -> Seq<char>
    decreases lines.len(),
{
    if lines.len() == 0 {
        Seq::empty()
    } else {
        indented(lines.drop_last()) + "    "@ + lines.last() + "\n"@
    }
}

/// The function `createMimic` with the given statements and links.
pub open spec fn program(body: Seq<Seq<char>>, links: Seq<(Seq<char>, Seq<char>)>) -> Seq<char> {
    "function createMimic() {"@ + indented(program_lines(body, links)) + "}"@
}

/// The walk once every node was visited.
pub open spec fn finished(nodes: Seq<Node>) -> Walk {
    walk(start(nodes), queued_size(start(nodes).queue))
}

/// The source of the function `createMimic` that rebuilds `nodes`.
pub open spec fn translation(nodes: Seq<Node>) -> Seq<char> {
    program(finished(nodes).body, finished(nodes).links)
}

proof fn lemma_queued_size_concat(a: Seq<(Seq<char>, Node)>, b: Seq<(Seq<char>, Node)>)
    ensures
        queued_size(a + b) == queued_size(a) + queued_size(b),
    decreases a.len(),
{
    if a.len() == 0 {
        assert(a + b =~= b);
    } else {
        assert((a + b).skip(1) =~= a.skip(1) + b);
        lemma_queued_size_concat(a.skip(1), b);
    }
}

proof fn lemma_forest_size(parent: Seq<char>, c: Seq<Node>, i: int)
    requires
        0 <= i <= c.len(),
    ensures
        queued_size(Seq::new((c.len() - i) as nat, |j: int| (parent, c[i + j]))) == forest_size_from(c, i),
    decreases c.len() - i,
{
    let q = Seq::new((c.len() - i) as nat, |j: int| (parent, c[i + j]));
    if i < c.len() {
        lemma_forest_size(parent, c, i + 1);
        assert(q.skip(1) =~= Seq::new((c.len() - (i + 1)) as nat, |j: int| (parent, c[i + 1 + j])));
    }
}

proof fn lemma_children_size(parent: Seq<char>, n: Node)
    ensures
        queued_size(children_of(parent, n)) + 1 == node_size(n),
{
    match n {
        Node::Element(e) => {
            lemma_forest_size(parent, e.children@, 0);
            assert(children_of(parent, n) =~= Seq::new(
                (e.children@.len() - 0) as nat,
                |j: int| (parent, e.children@[0 + j]),
            ));
        },
        _ => {},
    }
}

proof fn lemma_walk_step(w: Walk, k: nat)
    ensures
        walk(w, k + 1) == step(walk(w, k)),
    decreases k,
{
    assert(walk(w, k + 1) == walk(step(w), k));
    if k > 0 {
        lemma_walk_step(step(w), (k - 1) as nat);
        assert(walk(w, k) == walk(step(w), (k - 1) as nat));
    }
}

/// What waits in the queue from `head` on, as the walk sees it.
pub open spec fn waiting(q: Seq<(String, &Node)>, head: int) -> Seq<(Seq<char>, Node)> {
    Seq::new((q.len() - head) as nat, |j: int| (q[head + j].0@, *q[head + j].1))
}

pub open spec fn link_views(links: Seq<(String, String)>) -> Seq<(Seq<char>, Seq<char>)> {
    links.map_values(|l: (String, String)| (l.0@, l.1@))
}

fn push_line(lines: &mut Vec<String>, line: String)
    ensures
        views(final(lines)@) == views(old(lines)@).push(line@),
{
    lines.push(line);
    assert(views(final(lines)@) =~= views(old(lines)@).push(line@));
}

fn write_program(body: &Vec<String>, links: &Vec<(String, String)>) -> (r: String)
    ensures
        r@ == program(views(body@), link_views(links@)),
{
    let ghost lv = link_views(links@);
    let mut lines: Vec<String> = Vec::new();
    push_line(&mut lines, String::new());
    push_line(&mut lines, String::from_str("const root = document.createElement('div');"));
    let ghost head = views(lines@);
    let mut i: usize = 0;
    while i < body.len()
        invariant
            i <= body@.len(),
            views(lines@) == head + views(body@).take(i as int),
        decreases body@.len() - i,
    {
        push_line(&mut lines, body[i].clone());
        assert(views(body@).take(i + 1) =~= views(body@).take(i as int).push(body@[i as int]@));
        i = i + 1;
    }
    assert(views(body@).take(i as int) =~= views(body@));
    let ghost mid = views(lines@);
    let mut k: usize = 0;
    assert(lv.take(0) =~= Seq::<(Seq<char>, Seq<char>)>::empty());
    assert(mid + link_lines(lv.take(0)) =~= mid);
    while k < links.len()
        invariant
            k <= links@.len(),
            lv == link_views(links@),
            views(lines@) == mid + link_lines(lv.take(k as int)),
        decreases links@.len() - k,
    {
        let ghost t = lv.take(k + 1);
        assert(t.drop_last() =~= lv.take(k as int));
        if k == 0 || links[k - 1].0 != links[k].0 {
            push_line(&mut lines, String::new());
        }
        let mut line = links[k].0.clone();
        line.append(".appendChild(");
        line.append(links[k].1.as_str());
        line.append(");");
        push_line(&mut lines, line);
        assert(views(lines@) =~= mid + link_lines(t));
        k = k + 1;
    }
    assert(lv.take(k as int) =~= lv);
    push_line(&mut lines, String::new());
    push_line(&mut lines, String::from_str("return root;"));
    assert(views(lines@) =~= program_lines(views(body@), lv));
    let mut out = String::from_str("function createMimic() {");
    let ghost opening = out@;
    let mut j: usize = 0;
    while j < lines.len()
        invariant
            j <= lines@.len(),
            out@ == opening + indented(views(lines@).take(j as int)),
        decreases lines@.len() - j,
    {
        assert(views(lines@).take(j + 1).drop_last() =~= views(lines@).take(j as int));
        out.append("    ");
        out.append(lines[j].as_str());
        out.append("\n");
        assert(out@ =~= opening + indented(views(lines@).take(j + 1)));
        j = j + 1;
    }
    assert(views(lines@).take(j as int) =~= views(lines@));
    out.append("}");
    out
}

/// Writes the function that rebuilds `nodes`: a root container, each node's
/// statements in breadth-first order, one append per node under its parent,
/// and the return of the root.
pub fn translate(nodes: &Vec<Node>) -> (r: String)
    ensures
        r@ == translation(nodes@),
{
    let mut scriptifier = NodeScriptifier::new();
    let mut queue: Vec<(String, &Node)> = Vec::new();
    let mut k: usize = 0;
    while k < nodes.len()
        invariant
            k <= nodes@.len(),
            waiting(queue@, 0) == start(nodes@).queue.take(k as int),
        decreases nodes@.len() - k,
    {
        let ghost before = queue@;
        queue.push((String::from_str("root"), &nodes[k]));
        assert(waiting(queue@, 0) =~= waiting(before, 0).push(start(nodes@).queue[k as int]));
        assert(start(nodes@).queue.take(k + 1) =~= start(nodes@).queue.take(k as int).push(
            start(nodes@).queue[k as int],
        ));
        k = k + 1;
    }
    assert(start(nodes@).queue.take(k as int) =~= start(nodes@).queue);
    let ghost total = queued_size(start(nodes@).queue);
    let mut body: Vec<String> = Vec::new();
    let mut links: Vec<(String, String)> = Vec::new();
    let mut head: usize = 0;
    assert(views(body@) =~= Seq::<Seq<char>>::empty());
    assert(link_views(links@) =~= Seq::<(Seq<char>, Seq<char>)>::empty());
    while head < queue.len()
        invariant
            scriptifier.wf(),
            head <= queue@.len(),
            (Walk {
                registry: scriptifier.registry(),
                queue: waiting(queue@, head as int),
                body: views(body@),
                links: link_views(links@),
            }) == walk(start(nodes@), head as nat),
            forall|name: Seq<char>| mark_of(scriptifier.registry(), name) <= head,
            head + queued_size(waiting(queue@, head as int)) == total,
        decreases queued_size(waiting(queue@, head as int)),
    {
        let ghost w = walk(start(nodes@), head as nat);
        let ghost q0 = queue@;
        let parent = queue[head].0.clone();
        let node: &Node = queue[head].1;
        assert(w.queue[0] == (parent@, *node));
        assert(mark_of(scriptifier.registry(), crate::sanitizer::canonical(base_of(*node))) <= head);
        let (name, lines) = scriptifier.scriptify(node);
        let ghost body0 = views(body@);
        body.push(String::new());
        let mut l: usize = 0;
        while l < lines.len()
            invariant
                l <= lines@.len(),
                views(body@) == body0 + seq![Seq::<char>::empty()] + views(lines@).take(l as int),
            decreases lines@.len() - l,
        {
            let ghost b = body@;
            body.push(lines[l].clone());
            assert(views(body@) =~= views(b).push(lines@[l as int]@));
            assert(views(lines@).take(l + 1) =~= views(lines@).take(l as int).push(lines@[l as int]@));
            l = l + 1;
        }
        assert(views(lines@).take(l as int) =~= views(lines@));
        if let Node::Element(el) = node {
            let ghost kids = children_of(name@, *node);
            assert(kids =~= Seq::new(el.children@.len(), |j: int| (name@, el.children@[j])));
            let mut c: usize = 0;
            while c < el.children.len()
                invariant
                    kids == Seq::new(el.children@.len(), |j: int| (name@, el.children@[j])),
                    kids == children_of(name@, *node),
                    c <= el.children@.len(),
                    head < q0.len(),
                    queue@.len() == q0.len() + c,
                    queue@.subrange(0, q0.len() as int) == q0,
                    waiting(queue@, q0.len() as int) == children_of(name@, *node).take(c as int),
                decreases el.children@.len() - c,
            {
                let ghost qb = queue@;
                queue.push((name.clone(), &el.children[c]));
                assert(queue@.subrange(0, q0.len() as int) =~= qb.subrange(0, q0.len() as int));
                assert(waiting(queue@, q0.len() as int) =~= waiting(qb, q0.len() as int).push(
                    children_of(name@, *node)[c as int],
                ));
                assert(children_of(name@, *node).take(c + 1) =~= children_of(name@, *node).take(
                    c as int,
                ).push(children_of(name@, *node)[c as int]));
                c = c + 1;
            }
            assert(children_of(name@, *node).take(c as int) =~= children_of(name@, *node));
            assert(waiting(queue@, head as int) =~= waiting(q0, head as int) + children_of(name@, *node)) by {
                assert forall|j: int| 0 <= j < waiting(q0, head as int).len() implies
                    waiting(queue@, head as int)[j] == waiting(q0, head as int)[j] by {
                    assert(queue@[head + j] == queue@.subrange(0, q0.len() as int)[head + j]);
                }
                assert forall|j: int| 0 <= j < children_of(name@, *node).len() implies
                    waiting(queue@, head as int)[waiting(q0, head as int).len() + j]
                        == children_of(name@, *node)[j] by {
                    assert(waiting(queue@, q0.len() as int)[j] == children_of(name@, *node)[j]);
                }
            }
        } else {
            assert(children_of(name@, *node) =~= Seq::<(Seq<char>, Node)>::empty());
            assert(waiting(queue@, head as int) =~= waiting(q0, head as int) + children_of(name@, *node));
        }
        let ghost links0 = links@;
        links.push((parent, name));
        assert(link_views(links@) =~= link_views(links0).push((parent@, name@)));
        proof {
            let w1 = step(w);
            lemma_walk_step(start(nodes@), head as nat);
            assert(waiting(queue@, head + 1) =~= waiting(queue@, head as int).skip(1));
            assert(waiting(q0, head as int).skip(1) =~= w.queue.skip(1));
            assert(waiting(queue@, head + 1) =~= w1.queue);
            assert(views(body@) =~= w1.body);
            lemma_queued_size_concat(w.queue.skip(1), children_of(name@, *node));
            lemma_children_size(name@, *node);
            assert forall|n: Seq<char>| mark_of(scriptifier.registry(), n) <= head + 1 by {
                assert(mark_of(w.registry, n) <= head);
            }
        }
        head = head + 1;
    }
    proof {
        let w = walk(start(nodes@), head as nat);
        assert(w.queue.len() == 0);
        assert(queued_size(w.queue) == 0);
    }
    write_program(&body, &links)
}

/// The same tree always gives the same source text.
pub proof fn lemma_translation_deterministic(a: Seq<Node>, b: Seq<Node>)
    requires
        a == b,
    ensures
        translation(a) == translation(b),
{
}

/// Each visit records exactly one link, after all earlier ones: the parent the
/// node was queued under and the name it was given. Nodes are visited in queue
/// order, so links follow the breadth-first order of discovery.
pub proof fn lemma_links_in_visit_order(nodes: Seq<Node>, k: nat)
    requires
        walk(start(nodes), k).queue.len() > 0,
    ensures
        ({
            let w = walk(start(nodes), k);
            let (parent, n) = w.queue[0];
            walk(start(nodes), k + 1).links == w.links.push(
                (parent, identifier(w.registry, base_of(n))),
            )
        }),
        ({
            let w = walk(start(nodes), k);
            let (parent, n) = w.queue[0];
            let ident = identifier(w.registry, base_of(n));
            walk(start(nodes), k + 1).queue == w.queue.skip(1) + children_of(ident, n)
        }),
{
    lemma_walk_step(start(nodes), k);
}

/// A line that holds a statement, not a blank separator.
pub open spec fn is_statement(l: Seq<char>) -> bool {
    l.len() > 0
}

proof fn lemma_filter_single(l: Seq<char>)
    ensures
        seq![l].filter(|x: Seq<char>| is_statement(x)) == (if is_statement(l) { seq![l] } else { Seq::empty() }),
{
    reveal(Seq::filter);
    assert(seq![l].drop_last() =~= Seq::<Seq<char>>::empty());
    assert(Seq::<Seq<char>>::empty().filter(|x: Seq<char>| is_statement(x)) =~= Seq::<Seq<char>>::empty());
    assert(Seq::<Seq<char>>::empty().push(l) =~= seq![l]);
}

/// Leaving out the blank separators, the attachment statements are one per
/// link, in the order in which the links were recorded.
pub proof fn lemma_append_statements_in_link_order(links: Seq<(Seq<char>, Seq<char>)>)
    ensures
        link_lines(links).filter(|x: Seq<char>| is_statement(x)) == links.map_values(
            |l: (Seq<char>, Seq<char>)| link_line(l),
        ),
    decreases links.len(),
{
    let pred = |x: Seq<char>| is_statement(x);
    if links.len() == 0 {
        reveal(Seq::filter);
        assert(links.map_values(|l: (Seq<char>, Seq<char>)| link_line(l)) =~= Seq::<Seq<char>>::empty());
    } else {
        let k = links.len() - 1;
        let front = link_lines(links.drop_last());
        let gap = if k == 0 || links[k - 1].0 != links[k].0 {
            seq![Seq::<char>::empty()]
        } else {
            Seq::empty()
        };
        let last = link_line(links[k]);
        lemma_append_statements_in_link_order(links.drop_last());
        assert(link_lines(links) == front + gap + seq![last]);
        Seq::filter_distributes_over_add(front + gap, seq![last], pred);
        Seq::filter_distributes_over_add(front, gap, pred);
        reveal_strlit(");");
        assert(is_statement(last));
        lemma_filter_single(last);
        if gap.len() > 0 {
            lemma_filter_single(Seq::<char>::empty());
            assert(gap == seq![Seq::<char>::empty()]);
        } else {
            reveal(Seq::filter);
            assert(gap.filter(pred) =~= Seq::<Seq<char>>::empty());
        }
        assert(links.map_values(|l: (Seq<char>, Seq<char>)| link_line(l)) =~= links.drop_last().map_values(
            |l: (Seq<char>, Seq<char>)| link_line(l),
        ).push(last));
        assert(link_lines(links).filter(pred) =~= links.map_values(
            |l: (Seq<char>, Seq<char>)| link_line(l),
        ));
    }
}

}
