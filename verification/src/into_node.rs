//! The traversal itself: for each form of expression, the order in which
//! its parts are evaluated, the nodes and edges that stand for that order,
//! and the facts that the form gives rise to.

use vstd::prelude::*;
use crate::analysis::{Node, NodeData};
use crate::builder::AnalysisBuilder;
use crate::hir::{Expression, ExpressionData, IdentifiedExpression, Place};

verus! {

impl Expression {
    /// Evaluates the expression after `start_node`: first its parts, each
    /// entered from the one before it, then the expression itself at a node
    /// of its own. Returns the node at which the evaluation has completed.
    pub fn to_cfg_node(&self, start_node: Node, builder: &mut AnalysisBuilder<'_>) -> (node: Node)
        requires
            old(builder).well_formed(),
            old(builder).results().describes(*self),
        ensures
            (final(builder)@, node) == old(builder)@.flow_expression(
                old(builder).results(),
                start_node,
                *self,
            ),
            final(builder).results() == old(builder).results(),
            final(builder).well_formed(),
        decreases self,
    {
        let this = NodeData::Expression(self.id);
        match &self.data {
            ExpressionData::Let { variable: _, initializer, body } => {
                // First the initializer is evaluated.
                let initializer_node = option_to_cfg_node(initializer, start_node, builder);

                // Its value is bound to the variable at the node of the
                // `let` itself.
                let self_node = builder.push_node_edge(initializer_node, this);
                if let Some(value) = initializer {
                    builder.use_result_of(self_node, value.id);
                }

                // Then the body is evaluated.
                body.to_cfg_node(self_node, builder)
            },
            ExpressionData::Place { place } => {
                let place_node = place.to_cfg_node(start_node, builder);
                let self_node = builder.push_node_edge(place_node, this);

                let perm = builder.results().access_permission(self.id);
                let path = builder.path(place);
                builder.access(perm, path, self_node);

                self_node
            },
            ExpressionData::Assignment { place, value } => {
                let place_node = place.to_cfg_node(start_node, builder);
                let value_node = value.to_cfg_node(place_node, builder);
                let self_node = builder.push_node_edge(value_node, this);

                let path = builder.path(place);
                builder.generate_assignment_facts(path, self_node);

                self_node
            },
            ExpressionData::MethodCall { method: _, arguments } => {
                let arguments_node = expressions_to_cfg_node(arguments, start_node, builder);
                let self_node = builder.push_node_edge(arguments_node, this);
                builder.use_results_of(self_node, arguments);
                self_node
            },
            ExpressionData::Call { function, arguments } => {
                let function_node = function.to_cfg_node(start_node, builder);
                let arguments_node = expressions_to_cfg_node(arguments, function_node, builder);
                let self_node = builder.push_node_edge(arguments_node, this);
                builder.use_results_of(self_node, arguments);
                self_node
            },
            ExpressionData::If { condition, if_true, if_false } => {
                let condition_node = condition.to_cfg_node(start_node, builder);

                // A conditional executes where its condition is tested.
                let self_node = builder.push_node_edge(condition_node, this);
                builder.use_result_of(self_node, condition.id);

                // Both branches come after the test.
                let if_true_node = if_true.to_cfg_node(self_node, builder);
                let if_false_node = if_false.to_cfg_node(self_node, builder);

                // The control flows of the two branches meet again.
                let join_node = builder.push_node(NodeData::Join(self.id));
                builder.push_edge(if_true_node, join_node);
                builder.push_edge(if_false_node, join_node);

                join_node
            },
            ExpressionData::Binary { operator: _, left, right } => {
                let left_node = left.to_cfg_node(start_node, builder);
                let right_node = right.to_cfg_node(left_node, builder);
                let self_node = builder.push_node_edge(right_node, this);
                builder.use_result_of(self_node, left.id);
                builder.use_result_of(self_node, right.id);
                self_node
            },
            ExpressionData::Unary { operator: _, value } => {
                let value_node = value.to_cfg_node(start_node, builder);
                let self_node = builder.push_node_edge(value_node, this);
                builder.use_result_of(self_node, value.id);
                self_node
            },
            ExpressionData::Literal { data: _ } => builder.push_node_edge(start_node, this),
            ExpressionData::Unit => builder.push_node_edge(start_node, this),
            ExpressionData::Error => builder.push_node_edge(start_node, this),
            ExpressionData::Aggregate { entity: _, fields } => {
                let field_node = fields_to_cfg_node(fields, start_node, builder);
                let self_node = builder.push_node_edge(field_node, this);
                builder.use_results_of_fields(self_node, fields);
                self_node
            },
            ExpressionData::Sequence { first, second } => {
                let first_node = first.to_cfg_node(start_node, builder);
                let second_node = second.to_cfg_node(first_node, builder);
                builder.push_node_edge(second_node, this)
            },
        }
    }
}

impl IdentifiedExpression {
    /// Evaluates the initializer after `start_node`.
    pub fn to_cfg_node(&self, start_node: Node, builder: &mut AnalysisBuilder<'_>) -> (node: Node)
        requires
            old(builder).well_formed(),
            old(builder).results().describes(self.expression),
        ensures
            (final(builder)@, node) == old(builder)@.flow_expression(
                old(builder).results(),
                start_node,
                self.expression,
            ),
            final(builder).results() == old(builder).results(),
            final(builder).well_formed(),
        decreases self,
    {
        self.expression.to_cfg_node(start_node, builder)
    }
}

impl Place {
    /// Evaluates what leads to the place after `start_node`: nothing for a
    /// variable or an entity, the expression of a temporary, what leads to
    /// the owner of a field.
    pub fn to_cfg_node(&self, start_node: Node, builder: &mut AnalysisBuilder<'_>) -> (node: Node)
        requires
            old(builder).well_formed(),
            old(builder).results().describes_place(*self),
        ensures
            (final(builder)@, node) == old(builder)@.flow_place(
                old(builder).results(),
                start_node,
                *self,
            ),
            final(builder).results() == old(builder).results(),
            final(builder).well_formed(),
        decreases self,
    {
        match self {
            Place::Variable(_) => start_node,
            Place::Entity(_) => start_node,
            Place::Temporary(expression) => expression.to_cfg_node(start_node, builder),
            Place::Field { owner, name: _ } => owner.to_cfg_node(start_node, builder),
        }
    }
}

/// Evaluates the expressions of `list` after `start_node`, the first one
/// first, each entered from the node at which the one before it completed.
pub fn expressions_to_cfg_node(
    list: &Vec<Expression>,
    start_node: Node,
    builder: &mut AnalysisBuilder<'_>,
) -> (node: Node)
    requires
        old(builder).well_formed(),
        forall|i: int|
            0 <= i < list@.len() ==> old(builder).results().describes(#[trigger] list@[i]),
    ensures
        (final(builder)@, node) == old(builder)@.flow_expressions(
            old(builder).results(),
            start_node,
            list@,
            list@.len(),
        ),
        final(builder).results() == old(builder).results(),
        final(builder).well_formed(),
    decreases list,
{
    let ghost before = builder@;
    let ghost results = builder.results();
    let mut n = start_node;
    let mut i: usize = 0;
    while i < list.len()
        invariant
            i <= list.len(),
            forall|j: int| 0 <= j < list@.len() ==> results.describes(#[trigger] list@[j]),
            (builder@, n) == before.flow_expressions(results, start_node, list@, i as nat),
            builder.results() == results,
            builder.well_formed(),
        decreases list.len() - i,
    {
        n = list[i].to_cfg_node(n, builder);
        i += 1;
    }
    n
}

/// Evaluates the initializers of `fields` after `start_node`, the first
/// one first, each entered from the node at which the one before it
/// completed.
pub fn fields_to_cfg_node(
    fields: &Vec<IdentifiedExpression>,
    start_node: Node,
    builder: &mut AnalysisBuilder<'_>,
) -> (node: Node)
    requires
        old(builder).well_formed(),
        forall|i: int|
            0 <= i < fields@.len() ==> old(builder).results().describes(
                (#[trigger] fields@[i]).expression,
            ),
    ensures
        (final(builder)@, node) == old(builder)@.flow_fields(
            old(builder).results(),
            start_node,
            fields@,
            fields@.len(),
        ),
        final(builder).results() == old(builder).results(),
        final(builder).well_formed(),
    decreases fields,
{
    let ghost before = builder@;
    let ghost results = builder.results();
    let mut n = start_node;
    let mut i: usize = 0;
    while i < fields.len()
        invariant
            i <= fields.len(),
            forall|j: int|
                0 <= j < fields@.len() ==> results.describes((#[trigger] fields@[j]).expression),
            (builder@, n) == before.flow_fields(results, start_node, fields@, i as nat),
            builder.results() == results,
            builder.well_formed(),
        decreases fields.len() - i,
    {
        n = fields[i].to_cfg_node(n, builder);
        i += 1;
    }
    n
}

/// Evaluates an expression that may be absent: nothing is done and
/// `start_node` is returned if it is.
pub fn option_to_cfg_node(
    option: &Option<Box<Expression>>,
    start_node: Node,
    builder: &mut AnalysisBuilder<'_>,
) -> (node: Node)
    requires
        old(builder).well_formed(),
        *option matches Some(expression) ==> old(builder).results().describes(*expression),
    ensures
        (final(builder)@, node) == old(builder)@.flow_optional(
            old(builder).results(),
            start_node,
            *option,
        ),
        final(builder).results() == old(builder).results(),
        final(builder).well_formed(),
    decreases option,
{
    match option {
        None => start_node,
        Some(expression) => expression.to_cfg_node(start_node, builder),
    }
}

} // verus!
