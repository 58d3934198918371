//! What holds of the control-flow graph that a traversal builds.

use vstd::prelude::*;
use crate::analysis::{AnalysisModel, Node, NodeData};
use crate::edges::{
    chain, in_degree, lemma_in_degree_add, lemma_in_degree_none, out_degree, reaches,
};
use crate::hir::{Expression, ExpressionData, ExpressionId};
use crate::results::TypeCheckResults;
use crate::shape::{Shape, node_at};

verus! {

impl AnalysisModel {
    /// The traversal of an expression completes at the node that it
    /// created last, and control can pass from the node that it was
    /// entered from to that node along the edges that it added.
    pub proof fn lemma_completion_reachable(
        self,
        results: &TypeCheckResults,
        start: Node,
        expression: Expression,
    )
        ensures
            ({
                let (after, last) = self.flow_expression(results, start, expression);
                &&& after.node_datas.len() > self.node_datas.len()
                &&& last == node_at((after.node_datas.len() - 1) as nat)
                &&& after.cfg_edges.len() >= self.cfg_edges.len()
                &&& reaches(after.cfg_edges.skip(self.cfg_edges.len() as int), start, last)
            }),
    {
        reveal(Shape::regular);
        reveal(AnalysisModel::grows_by);
        let shape = expression.shape(start, self.node_datas.len());
        self.lemma_flow_expression_shape(results, start, expression);
        expression.lemma_shape_regular(start, self.node_datas.len(), expression.conditionals());
        let after = self.flow_expression(results, start, expression).0;
        assert(after.cfg_edges.skip(self.cfg_edges.len() as int) =~= shape.edges);
    }

    /// Every edge that the traversal of an expression adds leads to a node
    /// that the traversal created, and comes from the node that the
    /// traversal was entered from or from a node that it created earlier:
    /// no edge leads back.
    pub proof fn lemma_edges_lead_forward(
        self,
        results: &TypeCheckResults,
        start: Node,
        expression: Expression,
    )
        requires
            self.flow_expression(results, start, expression).0.node_datas.len() <= usize::MAX,
        ensures
            ({
                let after = self.flow_expression(results, start, expression).0;
                forall|i: int|
                    self.cfg_edges.len() <= i < after.cfg_edges.len() ==> {
                        &&& self.node_datas.len() <= (#[trigger] after.cfg_edges[i]).1.index
                            < after.node_datas.len()
                        &&& after.cfg_edges[i].0 == start || self.node_datas.len()
                            <= after.cfg_edges[i].0.index < after.cfg_edges[i].1.index
                    }
            }),
    {
        reveal(Shape::regular);
        reveal(AnalysisModel::grows_by);
        let shape = expression.shape(start, self.node_datas.len());
        self.lemma_flow_expression_shape(results, start, expression);
        expression.lemma_shape_regular(start, self.node_datas.len(), expression.conditionals());
        let after = self.flow_expression(results, start, expression).0;
        assert forall|i: int| self.cfg_edges.len() <= i < after.cfg_edges.len() implies {
            &&& self.node_datas.len() <= (#[trigger] after.cfg_edges[i]).1.index
                < after.node_datas.len()
            &&& after.cfg_edges[i].0 == start || self.node_datas.len()
                <= after.cfg_edges[i].0.index < after.cfg_edges[i].1.index
        } by {
            assert(after.cfg_edges[i] == shape.edges[i - self.cfg_edges.len()]);
        }
    }

    /// The traversal of an expression that holds no conditional adds a
    /// straight line: an edge from the node that it was entered from to
    /// the first node that it creates, an edge from each node that it
    /// creates to the next, and no other edge. It completes at the last
    /// node of the line.
    pub proof fn lemma_straight_line(
        self,
        results: &TypeCheckResults,
        start: Node,
        expression: Expression,
    )
        requires
            expression.branch_free(),
        ensures
            ({
                let (after, last) = self.flow_expression(results, start, expression);
                let count = (after.node_datas.len() - self.node_datas.len()) as nat;
                &&& after.node_datas.len() > self.node_datas.len()
                &&& after.cfg_edges == self.cfg_edges + chain(
                    start,
                    self.node_datas.len(),
                    count,
                )
                &&& last == node_at((after.node_datas.len() - 1) as nat)
            }),
    {
        reveal(Shape::regular);
        reveal(AnalysisModel::grows_by);
        reveal(Shape::straight);
        self.lemma_flow_expression_shape(results, start, expression);
        expression.lemma_shape_regular(start, self.node_datas.len(), expression.conditionals());
    }

    /// After the traversal of an expression, two edges lead into each join
    /// that it created and one into each other node that it created: only
    /// a join has more than one edge into it.
    pub proof fn lemma_fan_in(
        self,
        results: &TypeCheckResults,
        start: Node,
        expression: Expression,
    )
        requires
            self.closed(),
            self.flow_expression(results, start, expression).0.node_datas.len() <= usize::MAX,
        ensures
            ({
                let after = self.flow_expression(results, start, expression).0;
                forall|node: Node|
                    self.node_datas.len() <= node.index < after.node_datas.len() ==> {
                        let join = after.node_datas[node.index as int] is Join;
                        #[trigger] in_degree(after.cfg_edges, node) == if join {
                            2nat
                        } else {
                            1nat
                        }
                    }
            }),
    {
        reveal(Shape::regular);
        reveal(AnalysisModel::grows_by);
        let first = self.node_datas.len();
        let shape = expression.shape(start, first);
        self.lemma_flow_expression_shape(results, start, expression);
        expression.lemma_shape_regular(start, first, expression.conditionals());
        let after = self.flow_expression(results, start, expression).0;
        assert(after.cfg_edges == self.cfg_edges + shape.edges);
        assert forall|node: Node| first <= node.index < after.node_datas.len() implies {
            let join = after.node_datas[node.index as int] is Join;
            #[trigger] in_degree(after.cfg_edges, node) == if join {
                2nat
            } else {
                1nat
            }
        } by {
            assert(after.node_datas[node.index as int] == shape.nodes[node.index - first]);
            lemma_in_degree_add(self.cfg_edges, shape.edges, node);
            lemma_in_degree_none(self.cfg_edges, node);
        }
    }

    /// Among the edges that the traversal of an expression adds, one
    /// leaves the node that the traversal was entered from and none leaves
    /// the node at which it completes. One or two leave each other node
    /// that it created, and two only a node at which a conditional of the
    /// expression is tested.
    pub proof fn lemma_fan_out(
        self,
        results: &TypeCheckResults,
        start: Node,
        expression: Expression,
    )
        requires
            self.has_node(start),
            self.flow_expression(results, start, expression).0.node_datas.len() <= usize::MAX,
        ensures
            ({
                let (after, last) = self.flow_expression(results, start, expression);
                let added = after.cfg_edges.skip(self.cfg_edges.len() as int);
                &&& out_degree(added, start) == 1
                &&& out_degree(added, last) == 0
                &&& forall|node: Node|
                    self.node_datas.len() <= node.index < after.node_datas.len() ==> {
                        &&& node != last ==> 1 <= #[trigger] out_degree(added, node) <= 2
                        &&& out_degree(added, node) == 2 ==> (after.node_datas[node.index as int]
                            matches NodeData::Expression(id) && expression.tests(id))
                    }
            }),
    {
        reveal(Shape::regular);
        reveal(AnalysisModel::grows_by);
        let first = self.node_datas.len();
        let shape = expression.shape(start, first);
        self.lemma_flow_expression_shape(results, start, expression);
        expression.lemma_shape_regular(start, first, expression.conditionals());
        let (after, last) = self.flow_expression(results, start, expression);
        let added = after.cfg_edges.skip(self.cfg_edges.len() as int);
        assert(added =~= shape.edges);
        assert forall|node: Node| first <= node.index < after.node_datas.len() implies {
            &&& node != last ==> 1 <= #[trigger] out_degree(added, node) <= 2
            &&& out_degree(added, node) == 2 ==> (after.node_datas[node.index as int]
                matches NodeData::Expression(id) && expression.tests(id))
        } by {
            assert(after.node_datas[node.index as int] == shape.nodes[node.index - first]);
        }
    }

    /// The graph that the traversal of an expression adds depends on the
    /// expression, on the node that it is entered from and on the number of
    /// nodes that are there, and on nothing else: not on the paths, not on
    /// the facts, not on the types.
    pub proof fn lemma_graph_independent_of_facts(
        self,
        other: AnalysisModel,
        results: &TypeCheckResults,
        other_results: &TypeCheckResults,
        start: Node,
        expression: Expression,
    )
        requires
            self.node_datas.len() == other.node_datas.len(),
        ensures
            ({
                let (after, last) = self.flow_expression(results, start, expression);
                let (other_after, other_last) = other.flow_expression(
                    other_results,
                    start,
                    expression,
                );
                &&& last == other_last
                &&& after.node_datas.skip(self.node_datas.len() as int)
                    == other_after.node_datas.skip(other.node_datas.len() as int)
                &&& after.cfg_edges.skip(self.cfg_edges.len() as int)
                    == other_after.cfg_edges.skip(other.cfg_edges.len() as int)
            }),
    {
        reveal(AnalysisModel::grows_by);
        let shape = expression.shape(start, self.node_datas.len());
        self.lemma_flow_expression_shape(results, start, expression);
        other.lemma_flow_expression_shape(other_results, start, expression);
        let after = self.flow_expression(results, start, expression).0;
        let other_after = other.flow_expression(other_results, start, expression).0;
        assert(after.node_datas.skip(self.node_datas.len() as int) =~= shape.nodes);
        assert(other_after.node_datas.skip(other.node_datas.len() as int) =~= shape.nodes);
        assert(after.cfg_edges.skip(self.cfg_edges.len() as int) =~= shape.edges);
        assert(other_after.cfg_edges.skip(other.cfg_edges.len() as int) =~= shape.edges);
    }

    /// The traversal of a conditional completes at a join, into which
    /// exactly two edges lead: one from the node at which the first branch
    /// completes and one from the node at which the second branch
    /// completes, whatever the branches are.
    pub proof fn lemma_join_fan_in(
        self,
        results: &TypeCheckResults,
        start: Node,
        expression: Expression,
    )
        requires
            expression.data is If,
            self.closed(),
            self.has_node(start),
            self.flow_expression(results, start, expression).0.fits(),
        ensures
            ({
                let (after, join) = self.flow_expression(results, start, expression);
                let (true_node, false_node) = self.branch_exits(results, start, expression);
                &&& after.has_node(join)
                &&& after.node_datas[join.index as int] == NodeData::Join(expression.id)
                &&& in_degree(after.cfg_edges, join) == 2
                &&& true_node != false_node
                &&& forall|i: int|
                    0 <= i < after.cfg_edges.len() ==> ((#[trigger] after.cfg_edges[i]).1 == join
                        <==> i >= after.cfg_edges.len() - 2)
                &&& after.cfg_edges[after.cfg_edges.len() - 2] == (true_node, join)
                &&& after.cfg_edges[after.cfg_edges.len() - 1] == (false_node, join)
            }),
    {
        reveal(Shape::regular);
        reveal(AnalysisModel::grows_by);
        let this = NodeData::Expression(expression.id);
        match expression.data {
            ExpressionData::If { condition, if_true, if_false } => {
                self.lemma_flow_expression_keeps(results, start, *condition);
                let (evaluated, last) = self.flow_expression(results, start, *condition);
                let self_node = evaluated.next_node();
                evaluated.lemma_push_node_edge_keeps(last, this);
                let entered = evaluated.push_node_edge(last, this);
                entered.lemma_use_ty_keeps(self_node, results.spec_ty(condition.id));
                let tested = entered.use_result_of(results, self_node, condition.id);
                tested.lemma_flow_expression_keeps(results, self_node, *if_true);
                let (after_true, true_node) = tested.flow_expression(results, self_node, *if_true);
                after_true.lemma_flow_expression_keeps(results, self_node, *if_false);
                let (after_false, false_node) = after_true.flow_expression(
                    results,
                    self_node,
                    *if_false,
                );
                after_true.lemma_flow_expression_shape(results, self_node, *if_false);
                if_false.lemma_shape_regular(self_node, after_true.node_datas.len(), if_false.conditionals());
                let join = after_false.next_node();
                let after = self.flow_expression(results, start, expression).0;
                let two = after_false.cfg_edges.push((true_node, join));
                assert(after.cfg_edges == two.push((false_node, join)));
                assert(after.cfg_edges.drop_last() =~= two);
                assert(two.drop_last() =~= after_false.cfg_edges);
                lemma_in_degree_none(after_false.cfg_edges, join);
                assert(in_degree(two, join) == 1);
                assert(in_degree(after.cfg_edges, join) == 2);
            },
            _ => {},
        }
    }

    /// The nodes at which the two branches of a conditional complete, the
    /// first branch first.
    pub open spec fn branch_exits(
        self,
        results: &TypeCheckResults,
        start: Node,
        expression: Expression,
    ) -> (Node, Node) {
        match expression.data {
            ExpressionData::If { condition, if_true, if_false } => {
                let (evaluated, last) = self.flow_expression(results, start, *condition);
                let self_node = evaluated.next_node();
                let tested = evaluated.push_node_edge(
                    last,
                    NodeData::Expression(expression.id),
                ).use_result_of(results, self_node, condition.id);
                let (after_true, true_node) = tested.flow_expression(results, self_node, *if_true);
                let (after_false, false_node) = after_true.flow_expression(
                    results,
                    self_node,
                    *if_false,
                );
                (true_node, false_node)
            },
            _ => (start, start),
        }
    }
}

impl Expression {
    /// The identities of the conditionals of the expression.
    pub open spec fn conditionals(self) -> Set<ExpressionId> {
        Set::new(|id: ExpressionId| self.tests(id))
    }
}

} // verus!
