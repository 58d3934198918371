use flow_analysis::analysis::{Analysis, Node, NodeData, Path, PathData};
use flow_analysis::builder::AnalysisBuilder;
use flow_analysis::hir::{
    BinaryOperator, Entity, Expression, ExpressionData, ExpressionId, GlobalIdentifier,
    IdentifiedExpression, Identifier, LiteralData, LiteralKind, Place, UnaryOperator, Variable,
};
use flow_analysis::results::TypeCheckResults;
use flow_analysis::ty::{Base, BaseData, BaseKind, Perm, Ty};

fn expression(id: usize, data: ExpressionData) -> Expression {
    Expression { id: ExpressionId(id), data }
}

fn literal(id: usize) -> Expression {
    expression(
        id,
        ExpressionData::Literal {
            data: LiteralData { kind: LiteralKind::UnsignedInteger, value: GlobalIdentifier(id) },
        },
    )
}

fn read(id: usize, place: Place) -> Expression {
    expression(id, ExpressionData::Place { place })
}

fn variable(number: usize) -> Place {
    Place::Variable(Variable(number))
}

fn field(owner: Place, name: usize) -> Place {
    Place::Field { owner: Box::new(owner), name: Identifier { text: GlobalIdentifier(name) } }
}

fn plain(perm: usize) -> Ty {
    Ty {
        perm: Perm(perm),
        base: Base::Resolved(BaseData { kind: BaseKind::Named(Entity(0)), generics: vec![] }),
    }
}

fn node(index: usize) -> Node {
    Node { index }
}

fn path(index: usize) -> Path {
    Path { index }
}

fn tagged(ids: &[usize]) -> Vec<NodeData> {
    ids.iter().map(|id| NodeData::Expression(ExpressionId(*id))).collect()
}

fn line(count: usize) -> Vec<(Node, Node)> {
    (0..count).map(|i| (node(i), node(i + 1))).collect()
}

fn analyze(results: &TypeCheckResults, body: &Expression) -> (Analysis, Node) {
    assert!(results.covers(body));
    let mut builder = AnalysisBuilder::new(results);
    let entry = builder.push_node(NodeData::Expression(ExpressionId(0)));
    let last = builder.node(entry, body);
    (builder.into_analysis(), last)
}

#[test]
fn leaf_adds_one_node_after_the_start() {
    for body in [
        literal(1),
        expression(1, ExpressionData::Unit),
        expression(1, ExpressionData::Error),
    ] {
        let results = TypeCheckResults::new();
        let (analysis, last) = analyze(&results, &body);
        assert_eq!(last, node(1));
        assert_eq!(analysis.node_datas, tagged(&[0, 1]));
        assert_eq!(analysis.cfg_edges, line(1));
        assert_eq!(analysis.path_datas, vec![]);
        assert_eq!(analysis.accesses, vec![]);
        assert_eq!(analysis.overwritten, vec![]);
        assert_eq!(analysis.traverse, vec![]);
        assert_eq!(analysis.used, vec![]);
    }
}

#[test]
fn binary_evaluates_left_then_right_then_itself() {
    let body = expression(
        3,
        ExpressionData::Binary {
            operator: BinaryOperator::Add,
            left: Box::new(literal(1)),
            right: Box::new(literal(2)),
        },
    );
    let mut results = TypeCheckResults::new();
    results.record_ty(ExpressionId(1), plain(11));
    results.record_ty(ExpressionId(2), plain(12));

    let (analysis, last) = analyze(&results, &body);

    assert_eq!(last, node(3));
    assert_eq!(analysis.node_datas, tagged(&[0, 1, 2, 3]));
    assert_eq!(analysis.cfg_edges, line(3));
    assert_eq!(analysis.used, vec![(Perm(11), node(3)), (Perm(12), node(3))]);
}

#[test]
fn unary_uses_its_operand_at_its_own_node() {
    let body = expression(
        2,
        ExpressionData::Unary { operator: UnaryOperator::Not, value: Box::new(literal(1)) },
    );
    let mut results = TypeCheckResults::new();
    results.record_ty(ExpressionId(1), plain(11));

    let (analysis, last) = analyze(&results, &body);

    assert_eq!(last, node(2));
    assert_eq!(analysis.node_datas, tagged(&[0, 1, 2]));
    assert_eq!(analysis.cfg_edges, line(2));
    assert_eq!(analysis.used, vec![(Perm(11), node(2))]);
}

#[test]
fn sequence_has_a_node_of_its_own_and_no_fact() {
    let body = expression(
        3,
        ExpressionData::Sequence { first: Box::new(literal(1)), second: Box::new(literal(2)) },
    );
    let results = TypeCheckResults::new();

    let (analysis, last) = analyze(&results, &body);

    assert_eq!(last, node(3));
    assert_eq!(analysis.node_datas, tagged(&[0, 1, 2, 3]));
    assert_eq!(analysis.cfg_edges, line(3));
    assert_eq!(analysis.used, vec![]);
    assert_eq!(analysis.accesses, vec![]);
}

#[test]
fn method_call_evaluates_and_uses_its_arguments_in_order() {
    let body = expression(
        4,
        ExpressionData::MethodCall {
            method: Identifier { text: GlobalIdentifier(40) },
            arguments: vec![literal(1), literal(2), literal(3)],
        },
    );
    let mut results = TypeCheckResults::new();
    results.record_ty(ExpressionId(1), plain(11));
    results.record_ty(ExpressionId(2), plain(12));
    results.record_ty(ExpressionId(3), plain(13));

    let (analysis, last) = analyze(&results, &body);

    assert_eq!(last, node(4));
    assert_eq!(analysis.node_datas, tagged(&[0, 1, 2, 3, 4]));
    assert_eq!(analysis.cfg_edges, line(4));
    assert_eq!(
        analysis.used,
        vec![(Perm(11), node(4)), (Perm(12), node(4)), (Perm(13), node(4))]
    );
}

#[test]
fn call_evaluates_the_callee_before_the_arguments() {
    let body = expression(
        4,
        ExpressionData::Call {
            function: Box::new(read(1, Place::Entity(Entity(30)))),
            arguments: vec![literal(2), literal(3)],
        },
    );
    let mut results = TypeCheckResults::new();
    results.record_access_permission(ExpressionId(1), Perm(6));
    results.record_ty(ExpressionId(2), plain(12));
    results.record_ty(ExpressionId(3), plain(13));

    let (analysis, last) = analyze(&results, &body);

    assert_eq!(last, node(4));
    assert_eq!(analysis.node_datas, tagged(&[0, 1, 2, 3, 4]));
    assert_eq!(analysis.cfg_edges, line(4));
    assert_eq!(analysis.accesses, vec![(Perm(6), path(0), node(1))]);
    assert_eq!(analysis.used, vec![(Perm(12), node(4)), (Perm(13), node(4))]);
}

#[test]
fn call_without_arguments_uses_nothing() {
    let body = expression(
        2,
        ExpressionData::Call {
            function: Box::new(read(1, Place::Entity(Entity(30)))),
            arguments: vec![],
        },
    );
    let mut results = TypeCheckResults::new();
    results.record_access_permission(ExpressionId(1), Perm(6));

    let (analysis, last) = analyze(&results, &body);

    assert_eq!(last, node(2));
    assert_eq!(analysis.cfg_edges, line(2));
    assert_eq!(analysis.used, vec![]);
}

#[test]
fn aggregate_evaluates_and_uses_its_initializers_in_order() {
    let body = expression(
        3,
        ExpressionData::Aggregate {
            entity: Entity(50),
            fields: vec![
                IdentifiedExpression {
                    identifier: Identifier { text: GlobalIdentifier(41) },
                    expression: literal(1),
                },
                IdentifiedExpression {
                    identifier: Identifier { text: GlobalIdentifier(42) },
                    expression: literal(2),
                },
            ],
        },
    );
    let mut results = TypeCheckResults::new();
    results.record_ty(ExpressionId(1), plain(11));
    results.record_ty(ExpressionId(2), plain(12));

    let (analysis, last) = analyze(&results, &body);

    assert_eq!(last, node(3));
    assert_eq!(analysis.node_datas, tagged(&[0, 1, 2, 3]));
    assert_eq!(analysis.cfg_edges, line(3));
    assert_eq!(analysis.used, vec![(Perm(11), node(3)), (Perm(12), node(3))]);
}

#[test]
fn let_without_initializer_goes_straight_to_its_body() {
    let body = expression(
        2,
        ExpressionData::Let {
            variable: Variable(10),
            initializer: None,
            body: Box::new(literal(1)),
        },
    );
    let results = TypeCheckResults::new();

    let (analysis, last) = analyze(&results, &body);

    assert_eq!(last, node(2));
    assert_eq!(analysis.node_datas, tagged(&[0, 2, 1]));
    assert_eq!(analysis.cfg_edges, line(2));
    assert_eq!(analysis.used, vec![]);
}

#[test]
fn read_of_a_temporary_evaluates_its_expression_first() {
    let body = read(2, Place::Temporary(Box::new(literal(1))));
    let mut results = TypeCheckResults::new();
    results.record_access_permission(ExpressionId(2), Perm(6));

    let (analysis, last) = analyze(&results, &body);

    assert_eq!(last, node(2));
    assert_eq!(analysis.node_datas, tagged(&[0, 1, 2]));
    assert_eq!(analysis.cfg_edges, line(2));
    assert_eq!(analysis.path_datas, vec![PathData::Temporary(ExpressionId(1))]);
    assert_eq!(analysis.accesses, vec![(Perm(6), path(0), node(2))]);
}

#[test]
fn assignment_evaluates_the_place_before_the_value() {
    // (tmp 1).f.g = 2
    let place = field(field(Place::Temporary(Box::new(literal(1))), 20), 21);
    let body = expression(3, ExpressionData::Assignment { place, value: Box::new(literal(2)) });
    let results = TypeCheckResults::new();

    let (analysis, last) = analyze(&results, &body);

    assert_eq!(last, node(3));
    assert_eq!(analysis.node_datas, tagged(&[0, 1, 2, 3]));
    assert_eq!(analysis.cfg_edges, line(3));
    assert_eq!(
        analysis.path_datas,
        vec![
            PathData::Temporary(ExpressionId(1)),
            PathData::Field { owner: path(0), name: GlobalIdentifier(20) },
            PathData::Field { owner: path(1), name: GlobalIdentifier(21) },
        ]
    );
    assert_eq!(analysis.owner_paths, vec![(path(0), path(1)), (path(1), path(2))]);
    // Only the immediate owner is traversed.
    assert_eq!(analysis.traverse, vec![(path(1), node(3))]);
    assert_eq!(analysis.overwritten, vec![]);
}

#[test]
fn assignment_to_an_entity_and_to_a_temporary_are_overwrites() {
    let to_entity = expression(
        2,
        ExpressionData::Assignment { place: Place::Entity(Entity(30)), value: Box::new(literal(1)) },
    );
    let results = TypeCheckResults::new();
    let (analysis, _) = analyze(&results, &to_entity);
    assert_eq!(analysis.overwritten, vec![(path(0), node(2))]);
    assert_eq!(analysis.traverse, vec![]);

    let to_temporary = expression(
        3,
        ExpressionData::Assignment {
            place: Place::Temporary(Box::new(literal(1))),
            value: Box::new(literal(2)),
        },
    );
    let (analysis, _) = analyze(&results, &to_temporary);
    assert_eq!(analysis.path_datas, vec![PathData::Temporary(ExpressionId(1))]);
    assert_eq!(analysis.overwritten, vec![(path(0), node(3))]);
    assert_eq!(analysis.traverse, vec![]);
}

#[test]
fn reads_of_one_place_share_one_path() {
    // x.f; x.f
    let body = expression(
        3,
        ExpressionData::Sequence {
            first: Box::new(read(1, field(variable(10), 20))),
            second: Box::new(read(2, field(variable(10), 20))),
        },
    );
    let mut results = TypeCheckResults::new();
    results.record_access_permission(ExpressionId(1), Perm(6));
    results.record_access_permission(ExpressionId(2), Perm(7));

    let (analysis, _) = analyze(&results, &body);

    assert_eq!(
        analysis.path_datas,
        vec![
            PathData::Variable(Variable(10)),
            PathData::Field { owner: path(0), name: GlobalIdentifier(20) },
        ]
    );
    assert_eq!(analysis.owner_paths, vec![(path(0), path(1))]);
    assert_eq!(
        analysis.accesses,
        vec![(Perm(6), path(1), node(1)), (Perm(7), path(1), node(2))]
    );
}

#[test]
fn conditional_in_a_branch_has_a_join_of_its_own() {
    // if c { if d { 1 } else { 2 } } else { 3 }
    let inner = expression(
        5,
        ExpressionData::If {
            condition: Box::new(literal(2)),
            if_true: Box::new(literal(3)),
            if_false: Box::new(literal(4)),
        },
    );
    let body = expression(
        7,
        ExpressionData::If {
            condition: Box::new(literal(1)),
            if_true: Box::new(inner),
            if_false: Box::new(literal(6)),
        },
    );
    let mut results = TypeCheckResults::new();
    results.record_ty(ExpressionId(1), plain(11));
    results.record_ty(ExpressionId(2), plain(12));

    let (analysis, last) = analyze(&results, &body);

    assert_eq!(
        analysis.node_datas,
        vec![
            NodeData::Expression(ExpressionId(0)),
            NodeData::Expression(ExpressionId(1)),
            NodeData::Expression(ExpressionId(7)),
            NodeData::Expression(ExpressionId(2)),
            NodeData::Expression(ExpressionId(5)),
            NodeData::Expression(ExpressionId(3)),
            NodeData::Expression(ExpressionId(4)),
            NodeData::Join(ExpressionId(5)),
            NodeData::Expression(ExpressionId(6)),
            NodeData::Join(ExpressionId(7)),
        ]
    );
    assert_eq!(
        analysis.cfg_edges,
        vec![
            (node(0), node(1)),
            (node(1), node(2)),
            (node(2), node(3)),
            (node(3), node(4)),
            (node(4), node(5)),
            (node(4), node(6)),
            (node(5), node(7)),
            (node(6), node(7)),
            (node(2), node(8)),
            (node(7), node(9)),
            (node(8), node(9)),
        ]
    );
    assert_eq!(last, node(9));
    for join in [node(7), node(9)] {
        let into = analysis.cfg_edges.iter().filter(|edge| edge.1 == join).count();
        assert_eq!(into, 2);
    }
    assert_eq!(analysis.used, vec![(Perm(11), node(2)), (Perm(12), node(4))]);
}

#[test]
fn conditional_as_an_operand_is_entered_and_left_once() {
    // (if c { 1 } else { 2 }) + 3
    let choice = expression(
        4,
        ExpressionData::If {
            condition: Box::new(literal(1)),
            if_true: Box::new(literal(2)),
            if_false: Box::new(literal(3)),
        },
    );
    let body = expression(
        6,
        ExpressionData::Binary {
            operator: BinaryOperator::Add,
            left: Box::new(choice),
            right: Box::new(literal(5)),
        },
    );
    let mut results = TypeCheckResults::new();
    results.record_ty(ExpressionId(1), plain(11));
    results.record_ty(ExpressionId(4), plain(14));
    results.record_ty(ExpressionId(5), plain(15));

    let (analysis, last) = analyze(&results, &body);

    assert_eq!(last, node(7));
    assert_eq!(
        analysis.cfg_edges,
        vec![
            (node(0), node(1)),
            (node(1), node(2)),
            (node(2), node(3)),
            (node(2), node(4)),
            (node(3), node(5)),
            (node(4), node(5)),
            (node(5), node(6)),
            (node(6), node(7)),
        ]
    );
    assert_eq!(
        analysis.used,
        vec![(Perm(11), node(2)), (Perm(14), node(7)), (Perm(15), node(7))]
    );
}
