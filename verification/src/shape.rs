//! The control-flow graph of an expression by itself: the nodes of its
//! evaluation in the order in which they are created, the edges among them,
//! and the node at which the evaluation completes.
//!
//! The graph depends on the expression, on the node that it is entered
//! from and on the number of nodes that were there before; it does not
//! depend on the paths, on the facts or on the types.

use vstd::prelude::*;
use crate::analysis::{AnalysisModel, Node, NodeData};
use crate::hir::{Expression, ExpressionData, IdentifiedExpression, Place};
use crate::results::TypeCheckResults;

verus! {

/// The identity of the node that is created when `position` nodes are
/// there.
pub open spec fn node_at(position: nat) -> Node {
    Node { index: position as usize }
}

/// A piece of control flow.
pub struct Shape {
    /// The origins of its nodes, in the order of their creation.
    pub nodes: Seq<NodeData>,
    /// Its edges, in the order of their creation.
    pub edges: Seq<(Node, Node)>,
    /// The node at which it completes.
    pub exit: Node,
}

impl Shape {
    /// No evaluation at all: control stays at `start`.
    pub open spec fn nothing(start: Node) -> Shape {
        Shape { nodes: Seq::empty(), edges: Seq::empty(), exit: start }
    }

    /// This piece, then one more node entered from its exit. `first` is
    /// the number of nodes that were there before this piece.
    pub open spec fn with_node(self, first: nat, data: NodeData) -> Shape {
        let node = node_at(first + self.nodes.len());
        Shape {
            nodes: self.nodes.push(data),
            edges: self.edges.push((self.exit, node)),
            exit: node,
        }
    }

    /// This piece, then `next`.
    pub open spec fn followed_by(self, next: Shape) -> Shape {
        Shape { nodes: self.nodes + next.nodes, edges: self.edges + next.edges, exit: next.exit }
    }

    /// This piece, then one more node, entered from `left` and from
    /// `right`.
    pub open spec fn with_join(self, first: nat, data: NodeData, left: Node, right: Node) -> Shape {
        let node = node_at(first + self.nodes.len());
        Shape {
            nodes: self.nodes.push(data),
            edges: self.edges.push((left, node)).push((right, node)),
            exit: node,
        }
    }
}

impl Expression {
    /// The control flow of the expression, entered from `start` when
    /// `first` nodes are there.
    pub open spec fn shape(self, start: Node, first: nat) -> Shape
        decreases self, 0nat,
    {
        let this = NodeData::Expression(self.id);
        match self.data {
            ExpressionData::Let { variable, initializer, body } => {
                let bound = shape_of_optional(initializer, start, first).with_node(first, this);
                bound.followed_by(body.shape(bound.exit, first + bound.nodes.len()))
            },
            ExpressionData::Place { place } => place.shape(start, first).with_node(first, this),
            ExpressionData::Assignment { place, value } => {
                let located = place.shape(start, first);
                located.followed_by(value.shape(located.exit, first + located.nodes.len())).with_node(
                    first,
                    this,
                )
            },
            ExpressionData::MethodCall { method, arguments } => shape_of_expressions(
                arguments@,
                arguments@.len(),
                start,
                first,
            ).with_node(first, this),
            ExpressionData::Call { function, arguments } => {
                let called = function.shape(start, first);
                called.followed_by(
                    shape_of_expressions(
                        arguments@,
                        arguments@.len(),
                        called.exit,
                        first + called.nodes.len(),
                    ),
                ).with_node(first, this)
            },
            ExpressionData::If { condition, if_true, if_false } => {
                let tested = condition.shape(start, first).with_node(first, this);
                let left = if_true.shape(tested.exit, first + tested.nodes.len());
                let right = if_false.shape(
                    tested.exit,
                    first + tested.nodes.len() + left.nodes.len(),
                );
                tested.followed_by(left).followed_by(right).with_join(
                    first,
                    NodeData::Join(self.id),
                    left.exit,
                    right.exit,
                )
            },
            ExpressionData::Binary { operator, left, right } => {
                let after_left = left.shape(start, first);
                after_left.followed_by(
                    right.shape(after_left.exit, first + after_left.nodes.len()),
                ).with_node(first, this)
            },
            ExpressionData::Unary { operator, value } => value.shape(start, first).with_node(
                first,
                this,
            ),
            ExpressionData::Literal { data } => Shape::nothing(start).with_node(first, this),
            ExpressionData::Unit => Shape::nothing(start).with_node(first, this),
            ExpressionData::Error => Shape::nothing(start).with_node(first, this),
            ExpressionData::Aggregate { entity, fields } => shape_of_fields(
                fields@,
                fields@.len(),
                start,
                first,
            ).with_node(first, this),
            ExpressionData::Sequence { first: before, second } => {
                let after_first = before.shape(start, first);
                after_first.followed_by(
                    second.shape(after_first.exit, first + after_first.nodes.len()),
                ).with_node(first, this)
            },
        }
    }
}

impl Place {
    /// The control flow that leads to the place, entered from `start` when
    /// `first` nodes are there.
    pub open spec fn shape(self, start: Node, first: nat) -> Shape
        decreases self, 0nat,
    {
        match self {
            Place::Variable(_) => Shape::nothing(start),
            Place::Entity(_) => Shape::nothing(start),
            Place::Temporary(expression) => expression.shape(start, first),
            Place::Field { owner, name } => owner.shape(start, first),
        }
    }
}

/// The control flow of an expression that may be absent.
pub open spec fn shape_of_optional(option: Option<Box<Expression>>, start: Node, first: nat) -> Shape
    decreases option, 0nat,
{
    match option {
        Some(expression) => expression.shape(start, first),
        None => Shape::nothing(start),
    }
}

/// The control flow of the first `count` expressions of `list`, one after
/// the other.
pub open spec fn shape_of_expressions(
    list: Seq<Expression>,
    count: nat,
    start: Node,
    first: nat,
) -> Shape
    decreases list, count,
{
    if count == 0 || count > list.len() {
        Shape::nothing(start)
    } else {
        let before = shape_of_expressions(list, (count - 1) as nat, start, first);
        before.followed_by(list[count - 1].shape(before.exit, first + before.nodes.len()))
    }
}

/// The control flow of the first `count` initializers of `fields`, one
/// after the other.
pub open spec fn shape_of_fields(
    fields: Seq<IdentifiedExpression>,
    count: nat,
    start: Node,
    first: nat,
) -> Shape
    decreases fields, count,
{
    if count == 0 || count > fields.len() {
        Shape::nothing(start)
    } else {
        let before = shape_of_fields(fields, (count - 1) as nat, start, first);
        before.followed_by(fields[count - 1].expression.shape(before.exit, first + before.nodes.len()))
    }
}

impl AnalysisModel {
    /// `after` is `self` with the nodes and edges of `shape` added, and
    /// `last` is where `shape` completes.
    #[verifier::opaque]
    pub open spec fn grows_by(self, shape: Shape, after: AnalysisModel, last: Node) -> bool {
        &&& after.node_datas =~= self.node_datas + shape.nodes
        &&& after.cfg_edges =~= self.cfg_edges + shape.edges
        &&& last == shape.exit
    }

    pub(crate) proof fn lemma_grows_by_count(self, shape: Shape, after: AnalysisModel, last: Node)
        requires
            self.grows_by(shape, after, last),
        ensures
            after.node_datas.len() == self.node_datas.len() + shape.nodes.len(),
            last == shape.exit,
    {
        reveal(AnalysisModel::grows_by);
    }

    pub(crate) proof fn lemma_grows_by_nothing(self, start: Node)
        ensures
            self.grows_by(Shape::nothing(start), self, start),
    {
        reveal(AnalysisModel::grows_by);
    }

    pub(crate) proof fn lemma_grows_by_node(
        self,
        shape: Shape,
        after: AnalysisModel,
        last: Node,
        data: NodeData,
    )
        requires
            self.grows_by(shape, after, last),
        ensures
            self.grows_by(
                shape.with_node(self.node_datas.len(), data),
                after.push_node_edge(last, data),
                after.next_node(),
            ),
    {
        reveal(AnalysisModel::grows_by);
    }

    pub(crate) proof fn lemma_grows_by_join(
        self,
        shape: Shape,
        after: AnalysisModel,
        last: Node,
        data: NodeData,
        left: Node,
        right: Node,
    )
        requires
            self.grows_by(shape, after, last),
        ensures
            self.grows_by(
                shape.with_join(self.node_datas.len(), data, left, right),
                after.push_node(data).push_edge(left, after.next_node()).push_edge(
                    right,
                    after.next_node(),
                ),
                after.next_node(),
            ),
    {
        reveal(AnalysisModel::grows_by);
    }

    pub(crate) proof fn lemma_grows_by_more(
        self,
        shape: Shape,
        middle: AnalysisModel,
        through: Node,
        next: Shape,
        after: AnalysisModel,
        last: Node,
    )
        requires
            self.grows_by(shape, middle, through),
            middle.grows_by(next, after, last),
        ensures
            self.grows_by(shape.followed_by(next), after, last),
    {
        reveal(AnalysisModel::grows_by);
    }

    pub(crate) proof fn lemma_grows_by_same_graph(
        self,
        shape: Shape,
        after: AnalysisModel,
        last: Node,
        other: AnalysisModel,
    )
        requires
            self.grows_by(shape, after, last),
            other.node_datas == after.node_datas,
            other.cfg_edges == after.cfg_edges,
        ensures
            self.grows_by(shape, other, last),
    {
        reveal(AnalysisModel::grows_by);
    }

    /// The graph of an analysis does not change when the values of
    /// expressions are consumed.
    pub(crate) proof fn lemma_use_results_of_graph(
        self,
        results: &TypeCheckResults,
        node: Node,
        list: Seq<Expression>,
        count: nat,
    )
        ensures
            self.use_results_of(results, node, list, count).node_datas == self.node_datas,
            self.use_results_of(results, node, list, count).cfg_edges == self.cfg_edges,
        decreases count,
    {
        if count == 0 || count > list.len() {
        } else {
            self.lemma_use_results_of_graph(results, node, list, (count - 1) as nat);
        }
    }

    pub(crate) proof fn lemma_use_results_of_fields_graph(
        self,
        results: &TypeCheckResults,
        node: Node,
        fields: Seq<IdentifiedExpression>,
        count: nat,
    )
        ensures
            self.use_results_of_fields(results, node, fields, count).node_datas
                == self.node_datas,
            self.use_results_of_fields(results, node, fields, count).cfg_edges == self.cfg_edges,
        decreases count,
    {
        if count == 0 || count > fields.len() {
        } else {
            self.lemma_use_results_of_fields_graph(results, node, fields, (count - 1) as nat);
        }
    }

    /// The graph of an analysis does not change when a place is looked up.
    pub(crate) proof fn lemma_resolve_place_graph(self, place: Place)
        ensures
            self.resolve_place(place).0.node_datas == self.node_datas,
            self.resolve_place(place).0.cfg_edges == self.cfg_edges,
        decreases place,
    {
        match place {
            Place::Field { owner, name } => {
                self.lemma_resolve_place_graph(*owner);
            },
            _ => {},
        }
    }

    /// The traversal of an expression adds to the graph the control flow
    /// of the expression, and nothing else: its nodes after the nodes that
    /// were there, its edges after the edges that were there.
    pub proof fn lemma_flow_expression_shape(
        self,
        results: &TypeCheckResults,
        start: Node,
        expression: Expression,
    )
        ensures
            self.grows_by(
                expression.shape(start, self.node_datas.len()),
                self.flow_expression(results, start, expression).0,
                self.flow_expression(results, start, expression).1,
            ),
        decreases expression, 0nat,
    {
        let this = NodeData::Expression(expression.id);
        let first = self.node_datas.len();
        match expression.data {
            ExpressionData::Let { variable, initializer, body } => {
                self.lemma_flow_optional_shape(results, start, initializer);
                let value = shape_of_optional(initializer, start, first);
                let (evaluated, last) = self.flow_optional(results, start, initializer);
                self.lemma_grows_by_node(value, evaluated, last, this);
                let self_node = evaluated.next_node();
                let bound = evaluated.push_node_edge(last, this);
                let consumed = match initializer {
                    Some(value) => bound.use_result_of(results, self_node, value.id),
                    None => bound,
                };
                self.lemma_grows_by_same_graph(
                    value.with_node(first, this),
                    bound,
                    self_node,
                    consumed,
                );
                self.lemma_grows_by_count(value.with_node(first, this), consumed, self_node);
                consumed.lemma_flow_expression_shape(results, self_node, *body);
                let (after, exit) = consumed.flow_expression(results, self_node, *body);
                self.lemma_grows_by_more(
                    value.with_node(first, this),
                    consumed,
                    self_node,
                    body.shape(self_node, consumed.node_datas.len()),
                    after,
                    exit,
                );
            },
            ExpressionData::Place { place } => {
                self.lemma_flow_place_shape(results, start, place);
                let (evaluated, last) = self.flow_place(results, start, place);
                self.lemma_grows_by_node(place.shape(start, first), evaluated, last, this);
                let entered = evaluated.push_node_edge(last, this);
                entered.lemma_resolve_place_graph(place);
                self.lemma_grows_by_same_graph(
                    place.shape(start, first).with_node(first, this),
                    entered,
                    evaluated.next_node(),
                    self.flow_expression(results, start, expression).0,
                );
            },
            ExpressionData::Assignment { place, value } => {
                self.lemma_flow_place_shape(results, start, place);
                let located_shape = place.shape(start, first);
                let (located, place_node) = self.flow_place(results, start, place);
                self.lemma_grows_by_count(located_shape, located, place_node);
                located.lemma_flow_expression_shape(results, place_node, *value);
                let (evaluated, last) = located.flow_expression(results, place_node, *value);
                let upto_value = located_shape.followed_by(
                    value.shape(place_node, located.node_datas.len()),
                );
                self.lemma_grows_by_more(
                    located_shape,
                    located,
                    place_node,
                    value.shape(place_node, located.node_datas.len()),
                    evaluated,
                    last,
                );
                self.lemma_grows_by_node(upto_value, evaluated, last, this);
                let entered = evaluated.push_node_edge(last, this);
                entered.lemma_resolve_place_graph(place);
                self.lemma_grows_by_same_graph(
                    upto_value.with_node(first, this),
                    entered,
                    evaluated.next_node(),
                    self.flow_expression(results, start, expression).0,
                );
            },
            ExpressionData::MethodCall { method, arguments } => {
                self.lemma_flow_expressions_shape(results, start, arguments@, arguments@.len());
                let evaluated_shape = shape_of_expressions(
                    arguments@,
                    arguments@.len(),
                    start,
                    first,
                );
                let (evaluated, last) = self.flow_expressions(
                    results,
                    start,
                    arguments@,
                    arguments@.len(),
                );
                self.lemma_grows_by_node(evaluated_shape, evaluated, last, this);
                let entered = evaluated.push_node_edge(last, this);
                entered.lemma_use_results_of_graph(
                    results,
                    evaluated.next_node(),
                    arguments@,
                    arguments@.len(),
                );
                self.lemma_grows_by_same_graph(
                    evaluated_shape.with_node(first, this),
                    entered,
                    evaluated.next_node(),
                    self.flow_expression(results, start, expression).0,
                );
            },
            ExpressionData::Call { function, arguments } => {
                self.lemma_flow_expression_shape(results, start, *function);
                let called_shape = function.shape(start, first);
                let (called, function_node) = self.flow_expression(results, start, *function);
                self.lemma_grows_by_count(called_shape, called, function_node);
                called.lemma_flow_expressions_shape(
                    results,
                    function_node,
                    arguments@,
                    arguments@.len(),
                );
                let arguments_shape = shape_of_expressions(
                    arguments@,
                    arguments@.len(),
                    function_node,
                    called.node_datas.len(),
                );
                let (evaluated, last) = called.flow_expressions(
                    results,
                    function_node,
                    arguments@,
                    arguments@.len(),
                );
                self.lemma_grows_by_more(
                    called_shape,
                    called,
                    function_node,
                    arguments_shape,
                    evaluated,
                    last,
                );
                let upto_arguments = called_shape.followed_by(arguments_shape);
                self.lemma_grows_by_node(upto_arguments, evaluated, last, this);
                let entered = evaluated.push_node_edge(last, this);
                entered.lemma_use_results_of_graph(
                    results,
                    evaluated.next_node(),
                    arguments@,
                    arguments@.len(),
                );
                self.lemma_grows_by_same_graph(
                    upto_arguments.with_node(first, this),
                    entered,
                    evaluated.next_node(),
                    self.flow_expression(results, start, expression).0,
                );
            },
            ExpressionData::If { condition, if_true, if_false } => {
                self.lemma_flow_expression_shape(results, start, *condition);
                let (evaluated, last) = self.flow_expression(results, start, *condition);
                self.lemma_grows_by_node(condition.shape(start, first), evaluated, last, this);
                let tested_shape = condition.shape(start, first).with_node(first, this);
                let self_node = evaluated.next_node();
                let entered = evaluated.push_node_edge(last, this);
                let tested = entered.use_result_of(results, self_node, condition.id);
                self.lemma_grows_by_same_graph(tested_shape, entered, self_node, tested);
                self.lemma_grows_by_count(tested_shape, tested, self_node);

                tested.lemma_flow_expression_shape(results, self_node, *if_true);
                let left = if_true.shape(self_node, tested.node_datas.len());
                let (after_true, true_node) = tested.flow_expression(results, self_node, *if_true);
                tested.lemma_grows_by_count(left, after_true, true_node);
                self.lemma_grows_by_more(
                    tested_shape,
                    tested,
                    self_node,
                    left,
                    after_true,
                    true_node,
                );

                after_true.lemma_flow_expression_shape(results, self_node, *if_false);
                let right = if_false.shape(self_node, after_true.node_datas.len());
                let (after_false, false_node) = after_true.flow_expression(
                    results,
                    self_node,
                    *if_false,
                );
                after_true.lemma_grows_by_count(right, after_false, false_node);
                self.lemma_grows_by_more(
                    tested_shape.followed_by(left),
                    after_true,
                    true_node,
                    right,
                    after_false,
                    false_node,
                );
                self.lemma_grows_by_join(
                    tested_shape.followed_by(left).followed_by(right),
                    after_false,
                    false_node,
                    NodeData::Join(expression.id),
                    true_node,
                    false_node,
                );
            },
            ExpressionData::Binary { operator, left, right } => {
                self.lemma_flow_expression_shape(results, start, *left);
                let left_shape = left.shape(start, first);
                let (after_left, left_node) = self.flow_expression(results, start, *left);
                self.lemma_grows_by_count(left_shape, after_left, left_node);
                after_left.lemma_flow_expression_shape(results, left_node, *right);
                let right_shape = right.shape(left_node, after_left.node_datas.len());
                let (evaluated, last) = after_left.flow_expression(results, left_node, *right);
                self.lemma_grows_by_more(
                    left_shape,
                    after_left,
                    left_node,
                    right_shape,
                    evaluated,
                    last,
                );
                let operands = left_shape.followed_by(right_shape);
                self.lemma_grows_by_node(operands, evaluated, last, this);
                self.lemma_grows_by_same_graph(
                    operands.with_node(first, this),
                    evaluated.push_node_edge(last, this),
                    evaluated.next_node(),
                    self.flow_expression(results, start, expression).0,
                );
            },
            ExpressionData::Unary { operator, value } => {
                self.lemma_flow_expression_shape(results, start, *value);
                let (evaluated, last) = self.flow_expression(results, start, *value);
                self.lemma_grows_by_node(value.shape(start, first), evaluated, last, this);
                self.lemma_grows_by_same_graph(
                    value.shape(start, first).with_node(first, this),
                    evaluated.push_node_edge(last, this),
                    evaluated.next_node(),
                    self.flow_expression(results, start, expression).0,
                );
            },
            ExpressionData::Literal { data } => {
                self.lemma_grows_by_nothing(start);
                self.lemma_grows_by_node(Shape::nothing(start), self, start, this);
            },
            ExpressionData::Unit => {
                self.lemma_grows_by_nothing(start);
                self.lemma_grows_by_node(Shape::nothing(start), self, start, this);
            },
            ExpressionData::Error => {
                self.lemma_grows_by_nothing(start);
                self.lemma_grows_by_node(Shape::nothing(start), self, start, this);
            },
            ExpressionData::Aggregate { entity, fields } => {
                self.lemma_flow_fields_shape(results, start, fields@, fields@.len());
                let evaluated_shape = shape_of_fields(fields@, fields@.len(), start, first);
                let (evaluated, last) = self.flow_fields(results, start, fields@, fields@.len());
                self.lemma_grows_by_node(evaluated_shape, evaluated, last, this);
                let entered = evaluated.push_node_edge(last, this);
                entered.lemma_use_results_of_fields_graph(
                    results,
                    evaluated.next_node(),
                    fields@,
                    fields@.len(),
                );
                self.lemma_grows_by_same_graph(
                    evaluated_shape.with_node(first, this),
                    entered,
                    evaluated.next_node(),
                    self.flow_expression(results, start, expression).0,
                );
            },
            ExpressionData::Sequence { first: before, second } => {
                self.lemma_flow_expression_shape(results, start, *before);
                let first_shape = before.shape(start, first);
                let (after_first, first_node) = self.flow_expression(results, start, *before);
                self.lemma_grows_by_count(first_shape, after_first, first_node);
                after_first.lemma_flow_expression_shape(results, first_node, *second);
                let second_shape = second.shape(first_node, after_first.node_datas.len());
                let (evaluated, last) = after_first.flow_expression(results, first_node, *second);
                self.lemma_grows_by_more(
                    first_shape,
                    after_first,
                    first_node,
                    second_shape,
                    evaluated,
                    last,
                );
                self.lemma_grows_by_node(first_shape.followed_by(second_shape), evaluated, last, this);
            },
        }
    }

    pub(crate) proof fn lemma_flow_place_shape(
        self,
        results: &TypeCheckResults,
        start: Node,
        place: Place,
    )
        ensures
            self.grows_by(
                place.shape(start, self.node_datas.len()),
                self.flow_place(results, start, place).0,
                self.flow_place(results, start, place).1,
            ),
        decreases place, 0nat,
    {
        match place {
            Place::Variable(_) => {
                self.lemma_grows_by_nothing(start);
            },
            Place::Entity(_) => {
                self.lemma_grows_by_nothing(start);
            },
            Place::Temporary(expression) => {
                self.lemma_flow_expression_shape(results, start, *expression);
            },
            Place::Field { owner, name } => {
                self.lemma_flow_place_shape(results, start, *owner);
            },
        }
    }

    pub(crate) proof fn lemma_flow_optional_shape(
        self,
        results: &TypeCheckResults,
        start: Node,
        option: Option<Box<Expression>>,
    )
        ensures
            self.grows_by(
                shape_of_optional(option, start, self.node_datas.len()),
                self.flow_optional(results, start, option).0,
                self.flow_optional(results, start, option).1,
            ),
        decreases option, 0nat,
    {
        match option {
            Some(expression) => {
                self.lemma_flow_expression_shape(results, start, *expression);
            },
            None => {
                self.lemma_grows_by_nothing(start);
            },
        }
    }

    pub(crate) proof fn lemma_flow_expressions_shape(
        self,
        results: &TypeCheckResults,
        start: Node,
        list: Seq<Expression>,
        count: nat,
    )
        ensures
            self.grows_by(
                shape_of_expressions(list, count, start, self.node_datas.len()),
                self.flow_expressions(results, start, list, count).0,
                self.flow_expressions(results, start, list, count).1,
            ),
        decreases list, count,
    {
        if count == 0 || count > list.len() {
            self.lemma_grows_by_nothing(start);
        } else {
            self.lemma_flow_expressions_shape(results, start, list, (count - 1) as nat);
            let before = shape_of_expressions(
                list,
                (count - 1) as nat,
                start,
                self.node_datas.len(),
            );
            let (evaluated, last) = self.flow_expressions(
                results,
                start,
                list,
                (count - 1) as nat,
            );
            self.lemma_grows_by_count(before, evaluated, last);
            evaluated.lemma_flow_expression_shape(results, last, list[count - 1]);
            let (after, exit) = evaluated.flow_expression(results, last, list[count - 1]);
            self.lemma_grows_by_more(
                before,
                evaluated,
                last,
                list[count - 1].shape(last, evaluated.node_datas.len()),
                after,
                exit,
            );
        }
    }

    pub(crate) proof fn lemma_flow_fields_shape(
        self,
        results: &TypeCheckResults,
        start: Node,
        fields: Seq<IdentifiedExpression>,
        count: nat,
    )
        ensures
            self.grows_by(
                shape_of_fields(fields, count, start, self.node_datas.len()),
                self.flow_fields(results, start, fields, count).0,
                self.flow_fields(results, start, fields, count).1,
            ),
        decreases fields, count,
    {
        if count == 0 || count > fields.len() {
            self.lemma_grows_by_nothing(start);
        } else {
            self.lemma_flow_fields_shape(results, start, fields, (count - 1) as nat);
            let before = shape_of_fields(fields, (count - 1) as nat, start, self.node_datas.len());
            let (evaluated, last) = self.flow_fields(results, start, fields, (count - 1) as nat);
            self.lemma_grows_by_count(before, evaluated, last);
            evaluated.lemma_flow_expression_shape(results, last, fields[count - 1].expression);
            let (after, exit) = evaluated.flow_expression(
                results,
                last,
                fields[count - 1].expression,
            );
            self.lemma_grows_by_more(
                before,
                evaluated,
                last,
                fields[count - 1].expression.shape(last, evaluated.node_datas.len()),
                after,
                exit,
            );
        }
    }
}

} // verus!
