//! What the traversal of an expression does to an analysis, as a function
//! from the analysis before to the analysis after.
//!
//! Each function takes the node at which control stands when the evaluation
//! starts and yields, beside the analysis, the node at which it stands when
//! the evaluation has completed, so that what is evaluated next can be
//! chained to it.

use vstd::prelude::*;
use crate::analysis::{AnalysisModel, Node, NodeData, Path, PathData};
use crate::hir::{Expression, ExpressionData, ExpressionId, IdentifiedExpression, Place};
use crate::results::TypeCheckResults;

verus! {

impl AnalysisModel {
    /// The path that `place` denotes, and the table after the descriptors
    /// on the way to it were looked up: the owner before its projection.
    pub open spec fn resolve_place(self, place: Place) -> (AnalysisModel, Path)
        decreases place,
    {
        match place {
            Place::Variable(variable) => {
                let data = PathData::Variable(variable);
                (self.intern(data), self.path_of(data))
            },
            Place::Entity(entity) => {
                let data = PathData::Entity(entity);
                (self.intern(data), self.path_of(data))
            },
            Place::Temporary(expression) => {
                let data = PathData::Temporary(expression.id);
                (self.intern(data), self.path_of(data))
            },
            Place::Field { owner, name } => {
                let (resolved, owner_path) = self.resolve_place(*owner);
                let data = PathData::Field { owner: owner_path, name: name.text };
                (resolved.intern(data), resolved.path_of(data))
            },
        }
    }

    /// The facts after the value of `expression` was consumed at `node`.
    pub open spec fn use_result_of(
        self,
        results: &TypeCheckResults,
        node: Node,
        expression: ExpressionId,
    ) -> AnalysisModel {
        self.use_ty(node, results.spec_ty(expression))
    }

    /// The facts after the values of the first `count` expressions of
    /// `list` were consumed at `node`, one after the other.
    pub open spec fn use_results_of(
        self,
        results: &TypeCheckResults,
        node: Node,
        list: Seq<Expression>,
        count: nat,
    ) -> AnalysisModel
        decreases count,
    {
        if count == 0 || count > list.len() {
            self
        } else {
            self.use_results_of(results, node, list, (count - 1) as nat).use_result_of(
                results,
                node,
                list[count - 1].id,
            )
        }
    }

    /// The facts after the values of the first `count` initializers of
    /// `fields` were consumed at `node`, one after the other.
    pub open spec fn use_results_of_fields(
        self,
        results: &TypeCheckResults,
        node: Node,
        fields: Seq<IdentifiedExpression>,
        count: nat,
    ) -> AnalysisModel
        decreases count,
    {
        if count == 0 || count > fields.len() {
            self
        } else {
            self.use_results_of_fields(results, node, fields, (count - 1) as nat).use_result_of(
                results,
                node,
                fields[count - 1].expression.id,
            )
        }
    }

    /// The evaluation of `expression`, entered from `start`.
    ///
    /// Every form but the conditional evaluates its parts one after the
    /// other, left to right, and then itself, at a new node entered from
    /// the last part. The conditional evaluates the condition, then itself;
    /// its two branches are both entered from its own node and both lead
    /// into one more node, the join, at which it completes.
    pub open spec fn flow_expression(
        self,
        results: &TypeCheckResults,
        start: Node,
        expression: Expression,
    ) -> (AnalysisModel, Node)
        decreases expression, 0nat,
    {
        let this = NodeData::Expression(expression.id);
        match expression.data {
            ExpressionData::Let { variable, initializer, body } => {
                let (evaluated, last) = self.flow_optional(results, start, initializer);
                let self_node = evaluated.next_node();
                let bound = evaluated.push_node_edge(last, this);
                let consumed = match initializer {
                    Some(value) => bound.use_result_of(results, self_node, value.id),
                    None => bound,
                };
                consumed.flow_expression(results, self_node, *body)
            },
            ExpressionData::Place { place } => {
                let (evaluated, last) = self.flow_place(results, start, place);
                let self_node = evaluated.next_node();
                let (resolved, path) = evaluated.push_node_edge(last, this).resolve_place(place);
                (
                    resolved.access(results.spec_access_permission(expression.id), path, self_node),
                    self_node,
                )
            },
            ExpressionData::Assignment { place, value } => {
                let (located, place_node) = self.flow_place(results, start, place);
                let (evaluated, last) = located.flow_expression(results, place_node, *value);
                let self_node = evaluated.next_node();
                let (resolved, path) = evaluated.push_node_edge(last, this).resolve_place(place);
                (resolved.assign(path, self_node), self_node)
            },
            ExpressionData::MethodCall { method, arguments } => {
                let (evaluated, last) = self.flow_expressions(
                    results,
                    start,
                    arguments@,
                    arguments@.len(),
                );
                let self_node = evaluated.next_node();
                (
                    evaluated.push_node_edge(last, this).use_results_of(
                        results,
                        self_node,
                        arguments@,
                        arguments@.len(),
                    ),
                    self_node,
                )
            },
            ExpressionData::Call { function, arguments } => {
                let (called, function_node) = self.flow_expression(results, start, *function);
                let (evaluated, last) = called.flow_expressions(
                    results,
                    function_node,
                    arguments@,
                    arguments@.len(),
                );
                let self_node = evaluated.next_node();
                (
                    evaluated.push_node_edge(last, this).use_results_of(
                        results,
                        self_node,
                        arguments@,
                        arguments@.len(),
                    ),
                    self_node,
                )
            },
            ExpressionData::If { condition, if_true, if_false } => {
                let (evaluated, last) = self.flow_expression(results, start, *condition);
                let self_node = evaluated.next_node();
                let tested = evaluated.push_node_edge(last, this).use_result_of(
                    results,
                    self_node,
                    condition.id,
                );
                let (after_true, true_node) = tested.flow_expression(results, self_node, *if_true);
                let (after_false, false_node) = after_true.flow_expression(
                    results,
                    self_node,
                    *if_false,
                );
                let join_node = after_false.next_node();
                (
                    after_false.push_node(NodeData::Join(expression.id)).push_edge(
                        true_node,
                        join_node,
                    ).push_edge(false_node, join_node),
                    join_node,
                )
            },
            ExpressionData::Binary { operator, left, right } => {
                let (after_left, left_node) = self.flow_expression(results, start, *left);
                let (evaluated, last) = after_left.flow_expression(results, left_node, *right);
                let self_node = evaluated.next_node();
                (
                    evaluated.push_node_edge(last, this).use_result_of(
                        results,
                        self_node,
                        left.id,
                    ).use_result_of(results, self_node, right.id),
                    self_node,
                )
            },
            ExpressionData::Unary { operator, value } => {
                let (evaluated, last) = self.flow_expression(results, start, *value);
                let self_node = evaluated.next_node();
                (
                    evaluated.push_node_edge(last, this).use_result_of(
                        results,
                        self_node,
                        value.id,
                    ),
                    self_node,
                )
            },
            ExpressionData::Literal { data } => (self.push_node_edge(start, this), self.next_node()),
            ExpressionData::Unit => (self.push_node_edge(start, this), self.next_node()),
            ExpressionData::Error => (self.push_node_edge(start, this), self.next_node()),
            ExpressionData::Aggregate { entity, fields } => {
                let (evaluated, last) = self.flow_fields(results, start, fields@, fields@.len());
                let self_node = evaluated.next_node();
                (
                    evaluated.push_node_edge(last, this).use_results_of_fields(
                        results,
                        self_node,
                        fields@,
                        fields@.len(),
                    ),
                    self_node,
                )
            },
            ExpressionData::Sequence { first, second } => {
                let (after_first, first_node) = self.flow_expression(results, start, *first);
                let (evaluated, last) = after_first.flow_expression(results, first_node, *second);
                (evaluated.push_node_edge(last, this), evaluated.next_node())
            },
        }
    }

    /// The evaluation that leads to `place`, entered from `start`: nothing
    /// for a variable or an entity, the expression of a temporary, the
    /// evaluation that leads to the owner of a field.
    pub open spec fn flow_place(
        self,
        results: &TypeCheckResults,
        start: Node,
        place: Place,
    ) -> (AnalysisModel, Node)
        decreases place, 0nat,
    {
        match place {
            Place::Variable(_) => (self, start),
            Place::Entity(_) => (self, start),
            Place::Temporary(expression) => self.flow_expression(results, start, *expression),
            Place::Field { owner, name } => self.flow_place(results, start, *owner),
        }
    }

    /// The evaluation of an expression that may be absent, entered from
    /// `start`: nothing if it is absent.
    pub open spec fn flow_optional(
        self,
        results: &TypeCheckResults,
        start: Node,
        option: Option<Box<Expression>>,
    ) -> (AnalysisModel, Node)
        decreases option, 0nat,
    {
        match option {
            Some(expression) => self.flow_expression(results, start, *expression),
            None => (self, start),
        }
    }

    /// The evaluation of the first `count` expressions of `list`, entered
    /// from `start`, each entered from the node at which the one before it
    /// completed.
    pub open spec fn flow_expressions(
        self,
        results: &TypeCheckResults,
        start: Node,
        list: Seq<Expression>,
        count: nat,
    ) -> (AnalysisModel, Node)
        decreases list, count,
    {
        if count == 0 || count > list.len() {
            (self, start)
        } else {
            let (evaluated, last) = self.flow_expressions(
                results,
                start,
                list,
                (count - 1) as nat,
            );
            evaluated.flow_expression(results, last, list[count - 1])
        }
    }

    /// The evaluation of the first `count` initializers of `fields`,
    /// entered from `start`, each entered from the node at which the one
    /// before it completed.
    pub open spec fn flow_fields(
        self,
        results: &TypeCheckResults,
        start: Node,
        fields: Seq<IdentifiedExpression>,
        count: nat,
    ) -> (AnalysisModel, Node)
        decreases fields, count,
    {
        if count == 0 || count > fields.len() {
            (self, start)
        } else {
            let (evaluated, last) = self.flow_fields(results, start, fields, (count - 1) as nat);
            evaluated.flow_expression(results, last, fields[count - 1].expression)
        }
    }
}

/// The traversal is a function of the analysis that it starts from, of the
/// lookup tables, of the node that it is entered from and of the
/// expression: two traversals that agree in these agree in all that they
/// produce, node for node, path for path and fact for fact.
pub proof fn lemma_rebuild_identical(
    first: AnalysisModel,
    second: AnalysisModel,
    results: &TypeCheckResults,
    start: Node,
    expression: Expression,
)
    requires
        first == second,
    ensures
        first.flow_expression(results, start, expression) == second.flow_expression(
            results,
            start,
            expression,
        ),
{
}

} // verus!
