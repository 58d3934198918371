//! What holds of the control flow of every expression: it completes at
//! the node that it created last, control can pass from its entry to its
//! exit, its edges lead forward, and a node has two edges out of it only
//! where a conditional is tested. Without a conditional it is a straight
//! line.

use vstd::prelude::*;
use crate::analysis::{Node, NodeData};
use crate::edges::{
    chain, in_degree, lemma_in_degree_add, lemma_in_degree_none, lemma_in_degree_push,
    lemma_out_degree_add, lemma_out_degree_none, lemma_out_degree_push, lemma_reaches_both,
    lemma_reaches_self, lemma_reaches_step, lemma_reaches_widen, out_degree, reaches,
};
use crate::hir::{Expression, ExpressionData, ExpressionId, IdentifiedExpression, Place};
use crate::shape::{Shape, node_at, shape_of_expressions, shape_of_fields, shape_of_optional};

verus! {

impl Expression {
    /// `id` is the identity of a conditional that is the expression or
    /// stands in a part of it.
    pub open spec fn tests(self, id: ExpressionId) -> bool
        decreases self, 0nat,
    {
        match self.data {
            ExpressionData::Let { variable, initializer, body } => {
                ||| initializer matches Some(value) && value.tests(id)
                ||| body.tests(id)
            },
            ExpressionData::Place { place } => place.tests(id),
            ExpressionData::Assignment { place, value } => place.tests(id) || value.tests(id),
            ExpressionData::MethodCall { method, arguments } => tests_among(arguments@, id),
            ExpressionData::Call { function, arguments } => function.tests(id) || tests_among(
                arguments@,
                id,
            ),
            ExpressionData::If { condition, if_true, if_false } => {
                ||| self.id == id
                ||| condition.tests(id)
                ||| if_true.tests(id)
                ||| if_false.tests(id)
            },
            ExpressionData::Binary { operator, left, right } => left.tests(id) || right.tests(id),
            ExpressionData::Unary { operator, value } => value.tests(id),
            ExpressionData::Literal { data } => false,
            ExpressionData::Unit => false,
            ExpressionData::Error => false,
            ExpressionData::Aggregate { entity, fields } => tests_among_fields(fields@, id),
            ExpressionData::Sequence { first, second } => first.tests(id) || second.tests(id),
        }
    }

    /// No conditional stands in the expression or in any part of it.
    pub open spec fn branch_free(self) -> bool
        decreases self,
    {
        match self.data {
            ExpressionData::Let { variable, initializer, body } => {
                &&& initializer matches Some(value) ==> value.branch_free()
                &&& body.branch_free()
            },
            ExpressionData::Place { place } => place.branch_free(),
            ExpressionData::Assignment { place, value } => place.branch_free()
                && value.branch_free(),
            ExpressionData::MethodCall { method, arguments } => forall|i: int|
                0 <= i < arguments@.len() ==> (#[trigger] arguments@[i]).branch_free(),
            ExpressionData::Call { function, arguments } => {
                &&& function.branch_free()
                &&& forall|i: int|
                    0 <= i < arguments@.len() ==> (#[trigger] arguments@[i]).branch_free()
            },
            ExpressionData::If { condition, if_true, if_false } => false,
            ExpressionData::Binary { operator, left, right } => left.branch_free()
                && right.branch_free(),
            ExpressionData::Unary { operator, value } => value.branch_free(),
            ExpressionData::Literal { data } => true,
            ExpressionData::Unit => true,
            ExpressionData::Error => true,
            ExpressionData::Aggregate { entity, fields } => forall|i: int|
                0 <= i < fields@.len() ==> (#[trigger] fields@[i]).expression.branch_free(),
            ExpressionData::Sequence { first, second } => first.branch_free()
                && second.branch_free(),
        }
    }
}

impl Place {
    /// `id` is the identity of a conditional in what leads to the place.
    pub open spec fn tests(self, id: ExpressionId) -> bool
        decreases self, 0nat,
    {
        match self {
            Place::Variable(_) => false,
            Place::Entity(_) => false,
            Place::Temporary(expression) => expression.tests(id),
            Place::Field { owner, name } => owner.tests(id),
        }
    }

    /// No conditional stands in what leads to the place.
    pub open spec fn branch_free(self) -> bool
        decreases self,
    {
        match self {
            Place::Variable(_) => true,
            Place::Entity(_) => true,
            Place::Temporary(expression) => expression.branch_free(),
            Place::Field { owner, name } => owner.branch_free(),
        }
    }
}

/// `id` is the identity of a conditional in one of the expressions of
/// `list`.
pub open spec fn tests_among(list: Seq<Expression>, id: ExpressionId) -> bool
    decreases list, 0nat,
{
    exists|i: int| 0 <= i < list.len() && (#[trigger] list[i]).tests(id)
}

/// `id` is the identity of a conditional in one of the initializers of
/// `fields`.
pub open spec fn tests_among_fields(fields: Seq<IdentifiedExpression>, id: ExpressionId) -> bool
    decreases fields, 0nat,
{
    exists|i: int| 0 <= i < fields.len() && (#[trigger] fields[i]).expression.tests(id)
}

impl Shape {
    /// The piece completes at the last of its nodes; without a node it has
    /// no edge and completes where it was entered.
    pub open spec fn ends_at_last(self, start: Node, first: nat) -> bool {
        if self.nodes.len() == 0 {
            self.exit == start && self.edges.len() == 0
        } else {
            self.exit == node_at((first + self.nodes.len() - 1) as nat)
        }
    }

    /// Every edge leads to a node of the piece, from the node that the
    /// piece was entered from or from an earlier node of the piece.
    pub open spec fn forward(self, start: Node, first: nat) -> bool {
        forall|i: int|
            0 <= i < self.edges.len() ==> {
                &&& first <= (#[trigger] self.edges[i]).1.index < first + self.nodes.len()
                &&& self.edges[i].0 == start || first <= self.edges[i].0.index
                    < self.edges[i].1.index
            }
    }

    /// One edge leaves the node that the piece was entered from, if the
    /// piece has a node at all. No edge leaves its last node. One or two
    /// edges leave each other node of it, and two only a node that is
    /// tagged with an expression of `forks`.
    pub open spec fn fanned(self, start: Node, first: nat, forks: Set<ExpressionId>) -> bool {
        &&& out_degree(self.edges, start) == if self.nodes.len() == 0 {
            0nat
        } else {
            1nat
        }
        &&& forall|node: Node|
            first <= node.index < first + self.nodes.len() ==> {
                &&& node.index == first + self.nodes.len() - 1 ==> #[trigger] out_degree(
                    self.edges,
                    node,
                ) == 0
                &&& node.index < first + self.nodes.len() - 1 ==> 1 <= out_degree(
                    self.edges,
                    node,
                ) <= 2
                &&& out_degree(self.edges, node) == 2 ==> (self.nodes[node.index - first]
                    matches NodeData::Expression(id) && forks.contains(id))
            }
    }

    /// Two edges lead into each join of the piece, and one into each
    /// other node of it.
    pub open spec fn joined(self, first: nat) -> bool {
        forall|node: Node|
            first <= node.index < first + self.nodes.len() ==> {
                let join = self.nodes[node.index - first] is Join;
                #[trigger] in_degree(self.edges, node) == if join {
                    2nat
                } else {
                    1nat
                }
            }
    }

    /// The piece is in order: it completes at its last node, and control
    /// can pass from its entry to its exit. Where each of its nodes has an
    /// identity of its own, every edge leads forward, and only its joins
    /// have more than one edge into them; and where, besides, it was
    /// entered from a node that was there before it, it fans out only at
    /// the expressions of `forks`.
    #[verifier::opaque]
    pub open spec fn regular(self, start: Node, first: nat, forks: Set<ExpressionId>) -> bool {
        &&& self.ends_at_last(start, first)
        &&& reaches(self.edges, start, self.exit)
        &&& first + self.nodes.len() <= usize::MAX ==> self.forward(start, first)
        &&& first + self.nodes.len() <= usize::MAX ==> self.joined(first)
        &&& start.index < first && first + self.nodes.len() <= usize::MAX ==> self.fanned(
            start,
            first,
            forks,
        )
    }

    /// The piece is a straight line.
    #[verifier::opaque]
    pub open spec fn straight(self, start: Node, first: nat) -> bool {
        self.edges =~= chain(start, first, self.nodes.len())
    }

    pub(crate) proof fn lemma_nothing_regular(start: Node, first: nat, forks: Set<ExpressionId>)
        ensures
            Shape::nothing(start).regular(start, first, forks),
            Shape::nothing(start).straight(start, first),
    {
        reveal(Shape::regular);
        reveal(Shape::straight);
        lemma_reaches_self(Seq::<(Node, Node)>::empty(), start);
    }

    pub(crate) proof fn lemma_with_node_linked(self, start: Node, first: nat, data: NodeData)
        requires
            reaches(self.edges, start, self.exit),
        ensures
            reaches(self.with_node(first, data).edges, start, self.with_node(first, data).exit),
    {
        let longer = self.with_node(first, data);
        let edge = (self.exit, longer.exit);
        assert(longer.edges[self.edges.len() as int] == edge);
        assert forall|e: (Node, Node)| self.edges.contains(e) implies longer.edges.contains(e) by {
            let i = self.edges.index_of(e);
            assert(longer.edges[i] == e);
        }
        lemma_reaches_widen(self.edges, longer.edges, start, self.exit);
        lemma_reaches_step(longer.edges, start, self.exit, longer.exit);
    }

    pub(crate) proof fn lemma_with_node_fanned(
        self,
        start: Node,
        first: nat,
        data: NodeData,
        forks: Set<ExpressionId>,
    )
        requires
            start.index < first,
            first + self.nodes.len() + 1 <= usize::MAX,
            self.ends_at_last(start, first),
            self.forward(start, first),
            self.fanned(start, first, forks),
        ensures
            self.with_node(first, data).fanned(start, first, forks),
    {
        let longer = self.with_node(first, data);
        let edge = (self.exit, longer.exit);
        lemma_out_degree_push(self.edges, edge, start);
        assert forall|node: Node| first <= node.index < first + longer.nodes.len() implies {
            &&& node.index == first + longer.nodes.len() - 1 ==> #[trigger] out_degree(
                longer.edges,
                node,
            ) == 0
            &&& node.index < first + longer.nodes.len() - 1 ==> 1 <= out_degree(
                longer.edges,
                node,
            ) <= 2
            &&& out_degree(longer.edges, node) == 2 ==> (longer.nodes[node.index - first]
                matches NodeData::Expression(id) && forks.contains(id))
        } by {
            lemma_out_degree_push(self.edges, edge, node);
            if node.index == first + self.nodes.len() {
                lemma_out_degree_none(self.edges, node);
            } else {
                assert(longer.nodes[node.index - first] == self.nodes[node.index - first]);
            }
        }
    }

    pub(crate) proof fn lemma_with_node_joined(self, start: Node, first: nat, data: NodeData)
        requires
            first + self.nodes.len() + 1 <= usize::MAX,
            data is Expression,
            self.forward(start, first),
            self.joined(first),
        ensures
            self.with_node(first, data).joined(first),
    {
        let longer = self.with_node(first, data);
        let edge = (self.exit, longer.exit);
        assert forall|node: Node| first <= node.index < first + longer.nodes.len() implies {
            let join = longer.nodes[node.index - first] is Join;
            #[trigger] in_degree(longer.edges, node) == if join {
                2nat
            } else {
                1nat
            }
        } by {
            lemma_in_degree_push(self.edges, edge, node);
            if node.index == first + self.nodes.len() {
                lemma_in_degree_none(self.edges, node);
            } else {
                assert(longer.nodes[node.index - first] == self.nodes[node.index - first]);
            }
        }
    }

    pub(crate) proof fn lemma_with_node_regular(
        self,
        start: Node,
        first: nat,
        data: NodeData,
        forks: Set<ExpressionId>,
    )
        requires
            self.regular(start, first, forks),
            data is Expression,
        ensures
            self.with_node(first, data).regular(start, first, forks),
            self.straight(start, first) ==> self.with_node(first, data).straight(start, first),
    {
        reveal(Shape::regular);
        reveal(Shape::straight);
        self.lemma_with_node_linked(start, first, data);
        if first + self.nodes.len() + 1 <= usize::MAX {
            self.lemma_with_node_joined(start, first, data);
            if start.index < first {
                self.lemma_with_node_fanned(start, first, data, forks);
            }
        }
    }

    pub(crate) proof fn lemma_followed_by_linked(self, next: Shape, start: Node)
        requires
            reaches(self.edges, start, self.exit),
            reaches(next.edges, self.exit, next.exit),
        ensures
            reaches(self.followed_by(next).edges, start, next.exit),
    {
        let whole = self.followed_by(next);
        assert forall|e: (Node, Node)| self.edges.contains(e) implies whole.edges.contains(e) by {
            let i = self.edges.index_of(e);
            assert(whole.edges[i] == e);
        }
        assert forall|e: (Node, Node)| next.edges.contains(e) implies whole.edges.contains(e) by {
            let i = next.edges.index_of(e);
            assert(whole.edges[self.edges.len() + i] == e);
        }
        lemma_reaches_widen(self.edges, whole.edges, start, self.exit);
        lemma_reaches_widen(next.edges, whole.edges, self.exit, next.exit);
        lemma_reaches_both(whole.edges, start, self.exit, next.exit);
    }

    pub(crate) proof fn lemma_followed_by_forward(self, next: Shape, start: Node, first: nat)
        requires
            self.ends_at_last(start, first),
            self.forward(start, first),
            next.forward(self.exit, first + self.nodes.len()),
            first + self.nodes.len() + next.nodes.len() <= usize::MAX,
        ensures
            self.followed_by(next).forward(start, first),
    {
        let whole = self.followed_by(next);
        assert forall|i: int| 0 <= i < whole.edges.len() implies {
            &&& first <= (#[trigger] whole.edges[i]).1.index < first + whole.nodes.len()
            &&& whole.edges[i].0 == start || first <= whole.edges[i].0.index
                < whole.edges[i].1.index
        } by {
            if i < self.edges.len() {
                assert(whole.edges[i] == self.edges[i]);
            } else {
                assert(whole.edges[i] == next.edges[i - self.edges.len()]);
            }
        }
    }

    pub(crate) proof fn lemma_followed_by_fanned(
        self,
        next: Shape,
        start: Node,
        first: nat,
        forks: Set<ExpressionId>,
    )
        requires
            start.index < first,
            first + self.nodes.len() + next.nodes.len() <= usize::MAX,
            self.ends_at_last(start, first),
            next.ends_at_last(self.exit, first + self.nodes.len()),
            self.forward(start, first),
            next.forward(self.exit, first + self.nodes.len()),
            self.fanned(start, first, forks),
            next.fanned(self.exit, first + self.nodes.len(), forks),
        ensures
            self.followed_by(next).fanned(start, first, forks),
    {
        let whole = self.followed_by(next);
        let middle = first + self.nodes.len();
        lemma_out_degree_add(self.edges, next.edges, start);
        if self.nodes.len() > 0 {
            lemma_out_degree_none(next.edges, start);
        } else {
            lemma_out_degree_none(self.edges, start);
        }
        assert forall|node: Node| first <= node.index < first + whole.nodes.len() implies {
            &&& node.index == first + whole.nodes.len() - 1 ==> #[trigger] out_degree(
                whole.edges,
                node,
            ) == 0
            &&& node.index < first + whole.nodes.len() - 1 ==> 1 <= out_degree(
                whole.edges,
                node,
            ) <= 2
            &&& out_degree(whole.edges, node) == 2 ==> (whole.nodes[node.index - first]
                matches NodeData::Expression(id) && forks.contains(id))
        } by {
            lemma_out_degree_add(self.edges, next.edges, node);
            if node.index < middle {
                assert(whole.nodes[node.index - first] == self.nodes[node.index - first]);
                if node.index < middle - 1 {
                    lemma_out_degree_none(next.edges, node);
                } else {
                    assert(node == self.exit);
                }
            } else {
                assert(whole.nodes[node.index - first] == next.nodes[node.index - middle]);
                lemma_out_degree_none(self.edges, node);
            }
        }
    }

    pub(crate) proof fn lemma_followed_by_joined(self, next: Shape, start: Node, first: nat)
        requires
            first + self.nodes.len() + next.nodes.len() <= usize::MAX,
            self.forward(start, first),
            next.forward(self.exit, first + self.nodes.len()),
            self.joined(first),
            next.joined(first + self.nodes.len()),
        ensures
            self.followed_by(next).joined(first),
    {
        let whole = self.followed_by(next);
        let middle = first + self.nodes.len();
        assert forall|node: Node| first <= node.index < first + whole.nodes.len() implies {
            let join = whole.nodes[node.index - first] is Join;
            #[trigger] in_degree(whole.edges, node) == if join {
                2nat
            } else {
                1nat
            }
        } by {
            lemma_in_degree_add(self.edges, next.edges, node);
            if node.index < middle {
                assert(whole.nodes[node.index - first] == self.nodes[node.index - first]);
                lemma_in_degree_none(next.edges, node);
            } else {
                assert(whole.nodes[node.index - first] == next.nodes[node.index - middle]);
                lemma_in_degree_none(self.edges, node);
            }
        }
    }

    pub(crate) proof fn lemma_followed_by_straight(self, next: Shape, start: Node, first: nat)
        requires
            self.ends_at_last(start, first),
            self.straight(start, first),
            next.straight(self.exit, first + self.nodes.len()),
        ensures
            self.followed_by(next).straight(start, first),
    {
        reveal(Shape::straight);
        let whole = self.followed_by(next);
        let line = chain(start, first, whole.nodes.len());
        let before = self.nodes.len();
        assert(whole.edges.len() == line.len());
        assert forall|i: int| 0 <= i < line.len() implies whole.edges[i] == line[i] by {
            if i < before {
                assert(whole.edges[i] == chain(start, first, before)[i]);
            } else {
                assert(whole.edges[i] == chain(self.exit, first + before, next.nodes.len())[i
                    - before]);
            }
        }
    }

    /// One piece in order, followed by another in order, is in order.
    pub(crate) proof fn lemma_followed_by_regular(
        self,
        next: Shape,
        start: Node,
        first: nat,
        forks: Set<ExpressionId>,
    )
        requires
            self.regular(start, first, forks),
            next.regular(self.exit, first + self.nodes.len(), forks),
        ensures
            self.followed_by(next).regular(start, first, forks),
            self.straight(start, first) && next.straight(self.exit, first + self.nodes.len())
                ==> self.followed_by(next).straight(start, first),
    {
        reveal(Shape::regular);
        self.lemma_followed_by_linked(next, start);
        if first + self.nodes.len() + next.nodes.len() <= usize::MAX {
            self.lemma_followed_by_forward(next, start, first);
            self.lemma_followed_by_joined(next, start, first);
            if start.index < first {
                self.lemma_followed_by_fanned(next, start, first, forks);
            }
        }
        if self.straight(start, first) && next.straight(self.exit, first + self.nodes.len()) {
            self.lemma_followed_by_straight(next, start, first);
        }
    }

    pub(crate) proof fn lemma_branches_linked(
        self,
        left: Shape,
        right: Shape,
        start: Node,
        first: nat,
        data: NodeData,
    )
        requires
            reaches(self.edges, start, self.exit),
            reaches(left.edges, self.exit, left.exit),
        ensures
            reaches(
                self.followed_by(left).followed_by(right).with_join(
                    first,
                    data,
                    left.exit,
                    right.exit,
                ).edges,
                start,
                self.followed_by(left).followed_by(right).with_join(
                    first,
                    data,
                    left.exit,
                    right.exit,
                ).exit,
            ),
    {
        let upto_left = self.followed_by(left);
        let both = upto_left.followed_by(right);
        let whole = both.with_join(first, data, left.exit, right.exit);
        let join = whole.exit;
        self.lemma_followed_by_linked(left, start);
        assert(whole.edges[both.edges.len() as int] == (left.exit, join));
        assert(whole.edges.contains((left.exit, join)));
        assert forall|e: (Node, Node)| upto_left.edges.contains(e) implies whole.edges.contains(
            e,
        ) by {
            let i = upto_left.edges.index_of(e);
            assert(whole.edges[i] == e);
        }
        lemma_reaches_widen(upto_left.edges, whole.edges, start, left.exit);
        lemma_reaches_step(whole.edges, start, left.exit, join);
    }

    pub(crate) proof fn lemma_branches_forward(
        self,
        left: Shape,
        right: Shape,
        start: Node,
        first: nat,
        data: NodeData,
    )
        requires
            first + self.nodes.len() + left.nodes.len() + right.nodes.len() + 1 <= usize::MAX,
            self.nodes.len() >= 1,
            left.nodes.len() >= 1,
            right.nodes.len() >= 1,
            self.ends_at_last(start, first),
            left.ends_at_last(self.exit, first + self.nodes.len()),
            right.ends_at_last(self.exit, first + self.nodes.len() + left.nodes.len()),
            self.forward(start, first),
            left.forward(self.exit, first + self.nodes.len()),
            right.forward(self.exit, first + self.nodes.len() + left.nodes.len()),
        ensures
            self.followed_by(left).followed_by(right).with_join(
                first,
                data,
                left.exit,
                right.exit,
            ).forward(start, first),
    {
        let upto_left = self.followed_by(left);
        let both = upto_left.followed_by(right);
        let whole = both.with_join(first, data, left.exit, right.exit);
        let join = whole.exit;
        assert forall|i: int| 0 <= i < whole.edges.len() implies {
            &&& first <= (#[trigger] whole.edges[i]).1.index < first + whole.nodes.len()
            &&& whole.edges[i].0 == start || first <= whole.edges[i].0.index
                < whole.edges[i].1.index
        } by {
            if i < self.edges.len() {
                assert(whole.edges[i] == self.edges[i]);
            } else if i < upto_left.edges.len() {
                assert(whole.edges[i] == left.edges[i - self.edges.len()]);
            } else if i < both.edges.len() {
                assert(whole.edges[i] == right.edges[i - upto_left.edges.len()]);
            } else if i == both.edges.len() {
                assert(whole.edges[i] == (left.exit, join));
            } else {
                assert(whole.edges[i] == (right.exit, join));
            }
        }
    }

    pub(crate) proof fn lemma_branches_joined(
        self,
        left: Shape,
        right: Shape,
        start: Node,
        first: nat,
        id: ExpressionId,
    )
        requires
            first + self.nodes.len() + left.nodes.len() + right.nodes.len() + 1 <= usize::MAX,
            self.forward(start, first),
            left.forward(self.exit, first + self.nodes.len()),
            right.forward(self.exit, first + self.nodes.len() + left.nodes.len()),
            self.joined(first),
            left.joined(first + self.nodes.len()),
            right.joined(first + self.nodes.len() + left.nodes.len()),
        ensures
            self.followed_by(left).followed_by(right).with_join(
                first,
                NodeData::Join(id),
                left.exit,
                right.exit,
            ).joined(first),
    {
        let upto_left = self.followed_by(left);
        let both = upto_left.followed_by(right);
        let whole = both.with_join(first, NodeData::Join(id), left.exit, right.exit);
        let join = whole.exit;
        let after_test = first + self.nodes.len();
        let after_left = after_test + left.nodes.len();
        let after_right = after_left + right.nodes.len();
        let one = both.edges.push((left.exit, join));
        assert(whole.edges == one.push((right.exit, join)));
        assert forall|node: Node| first <= node.index < first + whole.nodes.len() implies {
            let join = whole.nodes[node.index - first] is Join;
            #[trigger] in_degree(whole.edges, node) == if join {
                2nat
            } else {
                1nat
            }
        } by {
            lemma_in_degree_push(one, (right.exit, join), node);
            lemma_in_degree_push(both.edges, (left.exit, join), node);
            lemma_in_degree_add(upto_left.edges, right.edges, node);
            lemma_in_degree_add(self.edges, left.edges, node);
            if node.index < after_test {
                assert(whole.nodes[node.index - first] == self.nodes[node.index - first]);
                lemma_in_degree_none(left.edges, node);
                lemma_in_degree_none(right.edges, node);
            } else if node.index < after_left {
                assert(whole.nodes[node.index - first] == left.nodes[node.index - after_test]);
                lemma_in_degree_none(self.edges, node);
                lemma_in_degree_none(right.edges, node);
            } else if node.index < after_right {
                assert(whole.nodes[node.index - first] == right.nodes[node.index - after_left]);
                lemma_in_degree_none(self.edges, node);
                lemma_in_degree_none(left.edges, node);
            } else {
                lemma_in_degree_none(self.edges, node);
                lemma_in_degree_none(left.edges, node);
                lemma_in_degree_none(right.edges, node);
            }
        }
    }

    pub(crate) proof fn lemma_branches_fanned(
        self,
        left: Shape,
        right: Shape,
        start: Node,
        first: nat,
        id: ExpressionId,
        forks: Set<ExpressionId>,
    )
        requires
            start.index < first,
            first + self.nodes.len() + left.nodes.len() + right.nodes.len() + 1 <= usize::MAX,
            self.nodes.len() >= 1,
            self.nodes.last() == NodeData::Expression(id),
            forks.contains(id),
            left.nodes.len() >= 1,
            right.nodes.len() >= 1,
            self.ends_at_last(start, first),
            left.ends_at_last(self.exit, first + self.nodes.len()),
            right.ends_at_last(self.exit, first + self.nodes.len() + left.nodes.len()),
            self.forward(start, first),
            left.forward(self.exit, first + self.nodes.len()),
            right.forward(self.exit, first + self.nodes.len() + left.nodes.len()),
            self.fanned(start, first, forks),
            left.fanned(self.exit, first + self.nodes.len(), forks),
            right.fanned(self.exit, first + self.nodes.len() + left.nodes.len(), forks),
        ensures
            self.followed_by(left).followed_by(right).with_join(
                first,
                NodeData::Join(id),
                left.exit,
                right.exit,
            ).fanned(start, first, forks),
    {
        let upto_left = self.followed_by(left);
        let both = upto_left.followed_by(right);
        let whole = both.with_join(first, NodeData::Join(id), left.exit, right.exit);
        let join = whole.exit;
        let after_test = first + self.nodes.len();
        let after_left = after_test + left.nodes.len();
        let after_right = after_left + right.nodes.len();
        let one = both.edges.push((left.exit, join));
        assert(whole.edges == one.push((right.exit, join)));

        lemma_out_degree_push(one, (right.exit, join), start);
        lemma_out_degree_push(both.edges, (left.exit, join), start);
        lemma_out_degree_add(upto_left.edges, right.edges, start);
        lemma_out_degree_add(self.edges, left.edges, start);
        lemma_out_degree_none(left.edges, start);
        lemma_out_degree_none(right.edges, start);

        assert forall|node: Node| first <= node.index < first + whole.nodes.len() implies {
            &&& node.index == first + whole.nodes.len() - 1 ==> #[trigger] out_degree(
                whole.edges,
                node,
            ) == 0
            &&& node.index < first + whole.nodes.len() - 1 ==> 1 <= out_degree(
                whole.edges,
                node,
            ) <= 2
            &&& out_degree(whole.edges, node) == 2 ==> (whole.nodes[node.index - first]
                matches NodeData::Expression(id) && forks.contains(id))
        } by {
            lemma_out_degree_push(one, (right.exit, join), node);
            lemma_out_degree_push(both.edges, (left.exit, join), node);
            lemma_out_degree_add(upto_left.edges, right.edges, node);
            lemma_out_degree_add(self.edges, left.edges, node);
            if node.index < after_test {
                assert(whole.nodes[node.index - first] == self.nodes[node.index - first]);
                if node.index < after_test - 1 {
                    lemma_out_degree_none(left.edges, node);
                    lemma_out_degree_none(right.edges, node);
                } else {
                    assert(node == self.exit);
                }
            } else if node.index < after_left {
                assert(whole.nodes[node.index - first] == left.nodes[node.index - after_test]);
                lemma_out_degree_none(self.edges, node);
                lemma_out_degree_none(right.edges, node);
            } else if node.index < after_right {
                assert(whole.nodes[node.index - first] == right.nodes[node.index - after_left]);
                lemma_out_degree_none(self.edges, node);
                lemma_out_degree_none(left.edges, node);
            } else {
                lemma_out_degree_none(self.edges, node);
                lemma_out_degree_none(left.edges, node);
                lemma_out_degree_none(right.edges, node);
            }
        }
    }

    /// A test in order, followed by two branches in order, both entered
    /// from the test, and a join that both lead into, is in order.
    pub(crate) proof fn lemma_branches_regular(
        self,
        left: Shape,
        right: Shape,
        start: Node,
        first: nat,
        id: ExpressionId,
        forks: Set<ExpressionId>,
    )
        requires
            self.regular(start, first, forks),
            self.nodes.len() >= 1,
            self.nodes.last() == NodeData::Expression(id),
            forks.contains(id),
            left.regular(self.exit, first + self.nodes.len(), forks),
            left.nodes.len() >= 1,
            right.regular(self.exit, first + self.nodes.len() + left.nodes.len(), forks),
            right.nodes.len() >= 1,
        ensures
            self.followed_by(left).followed_by(right).with_join(
                first,
                NodeData::Join(id),
                left.exit,
                right.exit,
            ).regular(start, first, forks),
    {
        reveal(Shape::regular);
        let data = NodeData::Join(id);
        self.lemma_branches_linked(left, right, start, first, data);
        if first + self.nodes.len() + left.nodes.len() + right.nodes.len() + 1 <= usize::MAX {
            self.lemma_branches_forward(left, right, start, first, data);
            self.lemma_branches_joined(left, right, start, first, id);
            if start.index < first {
                self.lemma_branches_fanned(left, right, start, first, id, forks);
            }
        }
    }
}

impl Expression {
    /// The control flow of an expression is in order and has a node; it
    /// fans out only where a conditional of the expression is tested, and
    /// it is a straight line if the expression holds no conditional.
    pub(crate) proof fn lemma_shape_regular(self, start: Node, first: nat, forks: Set<ExpressionId>)
        requires
            forall|id: ExpressionId| self.tests(id) ==> #[trigger] forks.contains(id),
        ensures
            self.shape(start, first).regular(start, first, forks),
            self.shape(start, first).nodes.len() >= 1,
            self.branch_free() ==> self.shape(start, first).straight(start, first),
        decreases self, 0nat,
    {
        let this = NodeData::Expression(self.id);
        match self.data {
            ExpressionData::Let { variable, initializer, body } => {
                lemma_optional_shape_regular(initializer, start, first, forks);
                let value = shape_of_optional(initializer, start, first);
                value.lemma_with_node_regular(start, first, this, forks);
                let bound = value.with_node(first, this);
                body.lemma_shape_regular(bound.exit, first + bound.nodes.len(), forks);
                bound.lemma_followed_by_regular(
                    body.shape(bound.exit, first + bound.nodes.len()),
                    start,
                    first,
                    forks,
                );
            },
            ExpressionData::Place { place } => {
                place.lemma_shape_regular(start, first, forks);
                place.shape(start, first).lemma_with_node_regular(start, first, this, forks);
            },
            ExpressionData::Assignment { place, value } => {
                place.lemma_shape_regular(start, first, forks);
                let located = place.shape(start, first);
                value.lemma_shape_regular(located.exit, first + located.nodes.len(), forks);
                let evaluated = value.shape(located.exit, first + located.nodes.len());
                located.lemma_followed_by_regular(evaluated, start, first, forks);
                located.followed_by(evaluated).lemma_with_node_regular(start, first, this, forks);
            },
            ExpressionData::MethodCall { method, arguments } => {
                lemma_expressions_shape_regular(arguments@, arguments@.len(), start, first, forks);
                shape_of_expressions(
                    arguments@,
                    arguments@.len(),
                    start,
                    first,
                ).lemma_with_node_regular(start, first, this, forks);
            },
            ExpressionData::Call { function, arguments } => {
                function.lemma_shape_regular(start, first, forks);
                let called = function.shape(start, first);
                lemma_expressions_shape_regular(
                    arguments@,
                    arguments@.len(),
                    called.exit,
                    first + called.nodes.len(),
                    forks,
                );
                let evaluated = shape_of_expressions(
                    arguments@,
                    arguments@.len(),
                    called.exit,
                    first + called.nodes.len(),
                );
                called.lemma_followed_by_regular(evaluated, start, first, forks);
                called.followed_by(evaluated).lemma_with_node_regular(start, first, this, forks);
            },
            ExpressionData::If { condition, if_true, if_false } => {
                assert(self.tests(self.id));
                condition.lemma_shape_regular(start, first, forks);
                condition.shape(start, first).lemma_with_node_regular(start, first, this, forks);
                let tested = condition.shape(start, first).with_node(first, this);
                if_true.lemma_shape_regular(tested.exit, first + tested.nodes.len(), forks);
                let left = if_true.shape(tested.exit, first + tested.nodes.len());
                if_false.lemma_shape_regular(
                    tested.exit,
                    first + tested.nodes.len() + left.nodes.len(),
                    forks,
                );
                let right = if_false.shape(
                    tested.exit,
                    first + tested.nodes.len() + left.nodes.len(),
                );
                tested.lemma_branches_regular(left, right, start, first, self.id, forks);
            },
            ExpressionData::Binary { operator, left, right } => {
                left.lemma_shape_regular(start, first, forks);
                let after_left = left.shape(start, first);
                right.lemma_shape_regular(after_left.exit, first + after_left.nodes.len(), forks);
                let evaluated = right.shape(after_left.exit, first + after_left.nodes.len());
                after_left.lemma_followed_by_regular(evaluated, start, first, forks);
                after_left.followed_by(evaluated).lemma_with_node_regular(
                    start,
                    first,
                    this,
                    forks,
                );
            },
            ExpressionData::Unary { operator, value } => {
                value.lemma_shape_regular(start, first, forks);
                value.shape(start, first).lemma_with_node_regular(start, first, this, forks);
            },
            ExpressionData::Literal { data } => {
                Shape::lemma_nothing_regular(start, first, forks);
                Shape::nothing(start).lemma_with_node_regular(start, first, this, forks);
            },
            ExpressionData::Unit => {
                Shape::lemma_nothing_regular(start, first, forks);
                Shape::nothing(start).lemma_with_node_regular(start, first, this, forks);
            },
            ExpressionData::Error => {
                Shape::lemma_nothing_regular(start, first, forks);
                Shape::nothing(start).lemma_with_node_regular(start, first, this, forks);
            },
            ExpressionData::Aggregate { entity, fields } => {
                lemma_fields_shape_regular(fields@, fields@.len(), start, first, forks);
                shape_of_fields(fields@, fields@.len(), start, first).lemma_with_node_regular(
                    start,
                    first,
                    this,
                    forks,
                );
            },
            ExpressionData::Sequence { first: before, second } => {
                before.lemma_shape_regular(start, first, forks);
                let after_first = before.shape(start, first);
                second.lemma_shape_regular(
                    after_first.exit,
                    first + after_first.nodes.len(),
                    forks,
                );
                let evaluated = second.shape(after_first.exit, first + after_first.nodes.len());
                after_first.lemma_followed_by_regular(evaluated, start, first, forks);
                after_first.followed_by(evaluated).lemma_with_node_regular(
                    start,
                    first,
                    this,
                    forks,
                );
            },
        }
    }
}

impl Place {
    pub(crate) proof fn lemma_shape_regular(self, start: Node, first: nat, forks: Set<ExpressionId>)
        requires
            forall|id: ExpressionId| self.tests(id) ==> #[trigger] forks.contains(id),
        ensures
            self.shape(start, first).regular(start, first, forks),
            self.branch_free() ==> self.shape(start, first).straight(start, first),
        decreases self, 0nat,
    {
        match self {
            Place::Variable(_) => {
                Shape::lemma_nothing_regular(start, first, forks);
            },
            Place::Entity(_) => {
                Shape::lemma_nothing_regular(start, first, forks);
            },
            Place::Temporary(expression) => {
                expression.lemma_shape_regular(start, first, forks);
            },
            Place::Field { owner, name } => {
                owner.lemma_shape_regular(start, first, forks);
            },
        }
    }
}

pub(crate) proof fn lemma_optional_shape_regular(
    option: Option<Box<Expression>>,
    start: Node,
    first: nat,
    forks: Set<ExpressionId>,
)
    requires
        option matches Some(expression) ==> forall|id: ExpressionId|
            expression.tests(id) ==> #[trigger] forks.contains(id),
    ensures
        shape_of_optional(option, start, first).regular(start, first, forks),
        (option matches Some(expression) ==> expression.branch_free()) ==> shape_of_optional(
            option,
            start,
            first,
        ).straight(start, first),
    decreases option, 0nat,
{
    match option {
        Some(expression) => {
            expression.lemma_shape_regular(start, first, forks);
        },
        None => {
            Shape::lemma_nothing_regular(start, first, forks);
        },
    }
}

pub(crate) proof fn lemma_expressions_shape_regular(
    list: Seq<Expression>,
    count: nat,
    start: Node,
    first: nat,
    forks: Set<ExpressionId>,
)
    requires
        forall|id: ExpressionId| tests_among(list, id) ==> #[trigger] forks.contains(id),
    ensures
        shape_of_expressions(list, count, start, first).regular(start, first, forks),
        (forall|i: int| 0 <= i < list.len() ==> (#[trigger] list[i]).branch_free())
            ==> shape_of_expressions(list, count, start, first).straight(start, first),
    decreases list, count,
{
    if count == 0 || count > list.len() {
        Shape::lemma_nothing_regular(start, first, forks);
    } else {
        lemma_expressions_shape_regular(list, (count - 1) as nat, start, first, forks);
        let before = shape_of_expressions(list, (count - 1) as nat, start, first);
        let this = list[count - 1];
        assert forall|id: ExpressionId| this.tests(id) implies #[trigger] forks.contains(id) by {
            assert(tests_among(list, id));
        }
        this.lemma_shape_regular(before.exit, first + before.nodes.len(), forks);
        before.lemma_followed_by_regular(
            this.shape(before.exit, first + before.nodes.len()),
            start,
            first,
            forks,
        );
    }
}

pub(crate) proof fn lemma_fields_shape_regular(
    fields: Seq<IdentifiedExpression>,
    count: nat,
    start: Node,
    first: nat,
    forks: Set<ExpressionId>,
)
    requires
        forall|id: ExpressionId| tests_among_fields(fields, id) ==> #[trigger] forks.contains(id),
    ensures
        shape_of_fields(fields, count, start, first).regular(start, first, forks),
        (forall|i: int| 0 <= i < fields.len() ==> (#[trigger] fields[i]).expression.branch_free())
            ==> shape_of_fields(fields, count, start, first).straight(start, first),
    decreases fields, count,
{
    if count == 0 || count > fields.len() {
        Shape::lemma_nothing_regular(start, first, forks);
    } else {
        lemma_fields_shape_regular(fields, (count - 1) as nat, start, first, forks);
        let before = shape_of_fields(fields, (count - 1) as nat, start, first);
        let this = fields[count - 1].expression;
        assert forall|id: ExpressionId| this.tests(id) implies #[trigger] forks.contains(id) by {
            assert(fields[count - 1].expression.tests(id));
            assert(tests_among_fields(fields, id));
        }
        this.lemma_shape_regular(before.exit, first + before.nodes.len(), forks);
        before.lemma_followed_by_regular(
            this.shape(before.exit, first + before.nodes.len()),
            start,
            first,
            forks,
        );
    }
}

} // verus!
