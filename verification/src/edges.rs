//! Notions of graphs over lists of edges: walks, straight lines, and the
//! number of edges into and out of a node.

use vstd::prelude::*;
use crate::analysis::Node;
use crate::shape::node_at;

verus! {

/// `walk` is a walk along `edges`: each of its nodes but the last has an
/// edge to the next.
pub open spec fn is_walk(edges: Seq<(Node, Node)>, walk: Seq<Node>) -> bool {
    &&& walk.len() >= 1
    &&& forall|i: int|
        0 <= i < walk.len() - 1 ==> edges.contains((#[trigger] walk[i], walk[i + 1]))
}

/// Control can pass from `from` to `to` along `edges`.
pub open spec fn reaches(edges: Seq<(Node, Node)>, from: Node, to: Node) -> bool {
    exists|walk: Seq<Node>|
        #![auto]
        is_walk(edges, walk) && walk[0] == from && walk[walk.len() - 1] == to
}

/// The edges of a straight line of `count` new nodes, entered from
/// `start` when `first` nodes are there: from `start` to the first of
/// them, and from each to the next.
pub open spec fn chain(start: Node, first: nat, count: nat) -> Seq<(Node, Node)> {
    Seq::new(
        count,
        |i: int|
            (if i == 0 {
                start
            } else {
                node_at((first + i - 1) as nat)
            }, node_at((first + i) as nat)),
    )
}

/// The number of edges of `edges` that lead into `node`.
pub open spec fn in_degree(edges: Seq<(Node, Node)>, node: Node) -> nat
    decreases edges.len(),
{
    if edges.len() == 0 {
        0
    } else {
        in_degree(edges.drop_last(), node) + if edges.last().1 == node {
            1nat
        } else {
            0nat
        }
    }
}

pub(crate) proof fn lemma_reaches_self(edges: Seq<(Node, Node)>, node: Node)
    ensures
        reaches(edges, node, node),
{
    let walk = seq![node];
    assert(is_walk(edges, walk) && walk[0] == node && walk[walk.len() - 1] == node);
}

/// A walk can be continued by an edge.
pub(crate) proof fn lemma_reaches_step(edges: Seq<(Node, Node)>, from: Node, through: Node, to: Node)
    requires
        reaches(edges, from, through),
        edges.contains((through, to)),
    ensures
        reaches(edges, from, to),
{
    let walk = choose|walk: Seq<Node>|
        #![auto]
        is_walk(edges, walk) && walk[0] == from && walk[walk.len() - 1] == through;
    let longer = walk.push(to);
    assert forall|i: int| 0 <= i < longer.len() - 1 implies edges.contains(
        (#[trigger] longer[i], longer[i + 1]),
    ) by {
        if i < walk.len() - 1 {
            assert(edges.contains((walk[i], walk[i + 1])));
        }
    }
    assert(is_walk(edges, longer) && longer[0] == from && longer[longer.len() - 1] == to);
}

/// A walk along some edges is a walk along more edges.
pub(crate) proof fn lemma_reaches_widen(
    edges: Seq<(Node, Node)>,
    wider: Seq<(Node, Node)>,
    from: Node,
    to: Node,
)
    requires
        reaches(edges, from, to),
        forall|edge: (Node, Node)| edges.contains(edge) ==> wider.contains(edge),
    ensures
        reaches(wider, from, to),
{
    let walk = choose|walk: Seq<Node>|
        #![auto]
        is_walk(edges, walk) && walk[0] == from && walk[walk.len() - 1] == to;
    assert forall|i: int| 0 <= i < walk.len() - 1 implies wider.contains(
        (#[trigger] walk[i], walk[i + 1]),
    ) by {
        assert(edges.contains((walk[i], walk[i + 1])));
    }
    assert(is_walk(wider, walk) && walk[0] == from && walk[walk.len() - 1] == to);
}

/// A walk that has reached the first node of another walk reaches each
/// node of that walk.
pub(crate) proof fn lemma_reaches_along(
    edges: Seq<(Node, Node)>,
    from: Node,
    walk: Seq<Node>,
    position: int,
)
    requires
        is_walk(edges, walk),
        reaches(edges, from, walk[0]),
        0 <= position < walk.len(),
    ensures
        reaches(edges, from, walk[position]),
    decreases position,
{
    if position > 0 {
        lemma_reaches_along(edges, from, walk, position - 1);
        assert(edges.contains((walk[position - 1], walk[position - 1 + 1])));
        lemma_reaches_step(edges, from, walk[position - 1], walk[position]);
    }
}

/// Two walks, the second from where the first ends, make one.
pub(crate) proof fn lemma_reaches_both(
    edges: Seq<(Node, Node)>,
    from: Node,
    through: Node,
    to: Node,
)
    requires
        reaches(edges, from, through),
        reaches(edges, through, to),
    ensures
        reaches(edges, from, to),
{
    let tail = choose|walk: Seq<Node>|
        #![auto]
        is_walk(edges, walk) && walk[0] == through && walk[walk.len() - 1] == to;
    lemma_reaches_along(edges, from, tail, tail.len() - 1);
}

/// No edge into a node: in-degree zero.
pub(crate) proof fn lemma_in_degree_none(edges: Seq<(Node, Node)>, node: Node)
    requires
        forall|i: int| 0 <= i < edges.len() ==> (#[trigger] edges[i]).1 != node,
    ensures
        in_degree(edges, node) == 0,
    decreases edges.len(),
{
    if edges.len() > 0 {
        lemma_in_degree_none(edges.drop_last(), node);
    }
}

/// One more edge adds one to the in-degree of the node that it leads into.
pub(crate) proof fn lemma_in_degree_push(edges: Seq<(Node, Node)>, edge: (Node, Node), node: Node)
    ensures
        in_degree(edges.push(edge), node) == in_degree(edges, node) + if edge.1 == node {
            1nat
        } else {
            0nat
        },
{
    assert(edges.push(edge).drop_last() =~= edges);
}

/// The in-degree in two lists of edges together is the sum of the
/// in-degrees in each.
pub(crate) proof fn lemma_in_degree_add(
    edges: Seq<(Node, Node)>,
    more: Seq<(Node, Node)>,
    node: Node,
)
    ensures
        in_degree(edges + more, node) == in_degree(edges, node) + in_degree(more, node),
    decreases more.len(),
{
    if more.len() == 0 {
        assert(edges + more =~= edges);
    } else {
        lemma_in_degree_add(edges, more.drop_last(), node);
        assert((edges + more).drop_last() =~= edges + more.drop_last());
    }
}

/// The number of edges of `edges` that leave `node`.
pub open spec fn out_degree(edges: Seq<(Node, Node)>, node: Node) -> nat
    decreases edges.len(),
{
    if edges.len() == 0 {
        0
    } else {
        out_degree(edges.drop_last(), node) + if edges.last().0 == node {
            1nat
        } else {
            0nat
        }
    }
}

/// No edge out of a node: out-degree zero.
pub(crate) proof fn lemma_out_degree_none(edges: Seq<(Node, Node)>, node: Node)
    requires
        forall|i: int| 0 <= i < edges.len() ==> (#[trigger] edges[i]).0 != node,
    ensures
        out_degree(edges, node) == 0,
    decreases edges.len(),
{
    if edges.len() > 0 {
        lemma_out_degree_none(edges.drop_last(), node);
    }
}

/// One more edge adds one to the out-degree of the node that it leaves.
pub(crate) proof fn lemma_out_degree_push(edges: Seq<(Node, Node)>, edge: (Node, Node), node: Node)
    ensures
        out_degree(edges.push(edge), node) == out_degree(edges, node) + if edge.0 == node {
            1nat
        } else {
            0nat
        },
{
    assert(edges.push(edge).drop_last() =~= edges);
}

/// The out-degree in two lists of edges together is the sum of the
/// out-degrees in each.
pub(crate) proof fn lemma_out_degree_add(
    edges: Seq<(Node, Node)>,
    more: Seq<(Node, Node)>,
    node: Node,
)
    ensures
        out_degree(edges + more, node) == out_degree(edges, node) + out_degree(more, node),
    decreases more.len(),
{
    if more.len() == 0 {
        assert(edges + more =~= edges);
    } else {
        lemma_out_degree_add(edges, more.drop_last(), node);
        assert((edges + more).drop_last() =~= edges + more.drop_last());
    }
}

} // verus!
