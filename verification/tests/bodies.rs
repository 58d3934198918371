use flow_analysis::analysis::{Analysis, Node, NodeData, Path, PathData};
use flow_analysis::builder::AnalysisBuilder;
use flow_analysis::hir::{
    Entity, Expression, ExpressionData, ExpressionId, GlobalIdentifier, Identifier, LiteralData,
    LiteralKind, Place, Variable,
};
use flow_analysis::results::TypeCheckResults;
use flow_analysis::ty::{Base, BaseData, BaseKind, InferVar, Perm, Ty};

fn literal(id: usize) -> Expression {
    Expression {
        id: ExpressionId(id),
        data: ExpressionData::Literal {
            data: LiteralData { kind: LiteralKind::UnsignedInteger, value: GlobalIdentifier(id) },
        },
    }
}

fn read(id: usize, place: Place) -> Expression {
    Expression { id: ExpressionId(id), data: ExpressionData::Place { place } }
}

fn field(owner: Place, name: usize) -> Place {
    Place::Field { owner: Box::new(owner), name: Identifier { text: GlobalIdentifier(name) } }
}

fn plain(perm: usize) -> Ty {
    Ty {
        perm: Perm(perm),
        base: Base::Resolved(BaseData { kind: BaseKind::Named(Entity(0)), generics: vec![] }),
    }
}

fn node(index: usize) -> Node {
    Node { index }
}

fn path(index: usize) -> Path {
    Path { index }
}

/// Runs the builder on `body`, entered from a first node that stands for
/// the entry of the function.
fn analyze(results: &TypeCheckResults, body: &Expression) -> (Analysis, Node) {
    assert!(results.covers(body));
    let mut builder = AnalysisBuilder::new(results);
    let entry = builder.push_node(NodeData::Expression(ExpressionId(0)));
    let last = builder.node(entry, body);
    (builder.into_analysis(), last)
}

fn in_degree(analysis: &Analysis, target: Node) -> usize {
    analysis.cfg_edges.iter().filter(|edge| edge.1 == target).count()
}

#[test]
fn let_of_a_field_read_then_read_of_the_variable() {
    // let t = a.b; t
    let a = Place::Variable(Variable(10));
    let body = Expression {
        id: ExpressionId(3),
        data: ExpressionData::Let {
            variable: Variable(11),
            initializer: Some(Box::new(read(1, field(a, 20)))),
            body: Box::new(read(2, Place::Variable(Variable(11)))),
        },
    };
    let mut results = TypeCheckResults::new();
    results.record_ty(ExpressionId(1), plain(5));
    results.record_access_permission(ExpressionId(1), Perm(6));
    results.record_access_permission(ExpressionId(2), Perm(7));

    let (analysis, last) = analyze(&results, &body);

    assert_eq!(last, node(3));
    assert_eq!(
        analysis.node_datas,
        vec![
            NodeData::Expression(ExpressionId(0)),
            NodeData::Expression(ExpressionId(1)),
            NodeData::Expression(ExpressionId(3)),
            NodeData::Expression(ExpressionId(2)),
        ]
    );
    assert_eq!(analysis.cfg_edges, vec![(node(0), node(1)), (node(1), node(2)), (node(2), node(3))]);
    assert_eq!(
        analysis.path_datas,
        vec![
            PathData::Variable(Variable(10)),
            PathData::Field { owner: path(0), name: GlobalIdentifier(20) },
            PathData::Variable(Variable(11)),
        ]
    );
    assert_eq!(analysis.owner_paths, vec![(path(0), path(1))]);
    assert_eq!(
        analysis.accesses,
        vec![(Perm(6), path(1), node(1)), (Perm(7), path(2), node(3))]
    );
    assert_eq!(analysis.used, vec![(Perm(5), node(2))]);
    // A binding is no assignment to a place: it records neither fact.
    assert_eq!(analysis.overwritten, vec![]);
    assert_eq!(analysis.traverse, vec![]);
}

#[test]
fn assignment_to_a_variable_is_an_overwrite() {
    // x = 1
    let body = Expression {
        id: ExpressionId(2),
        data: ExpressionData::Assignment {
            place: Place::Variable(Variable(10)),
            value: Box::new(literal(1)),
        },
    };
    let results = TypeCheckResults::new();

    let (analysis, last) = analyze(&results, &body);

    assert_eq!(last, node(2));
    assert_eq!(analysis.path_datas, vec![PathData::Variable(Variable(10))]);
    assert_eq!(analysis.overwritten, vec![(path(0), node(2))]);
    assert_eq!(analysis.traverse, vec![]);
    assert_eq!(analysis.owner_paths, vec![]);
    assert_eq!(analysis.cfg_edges, vec![(node(0), node(1)), (node(1), node(2))]);
}

#[test]
fn assignment_to_a_field_is_a_traversal_of_its_owner() {
    // obj.field = 1
    let body = Expression {
        id: ExpressionId(2),
        data: ExpressionData::Assignment {
            place: field(Place::Variable(Variable(10)), 20),
            value: Box::new(literal(1)),
        },
    };
    let results = TypeCheckResults::new();

    let (analysis, last) = analyze(&results, &body);

    assert_eq!(last, node(2));
    assert_eq!(
        analysis.path_datas,
        vec![
            PathData::Variable(Variable(10)),
            PathData::Field { owner: path(0), name: GlobalIdentifier(20) },
        ]
    );
    assert_eq!(analysis.overwritten, vec![]);
    assert_eq!(analysis.traverse, vec![(path(0), node(2))]);
    assert_eq!(analysis.owner_paths, vec![(path(0), path(1))]);
}

#[test]
fn conditional_joins_its_two_branches() {
    // if c { 1 } else { 2 }
    let body = Expression {
        id: ExpressionId(4),
        data: ExpressionData::If {
            condition: Box::new(read(1, Place::Variable(Variable(10)))),
            if_true: Box::new(literal(2)),
            if_false: Box::new(literal(3)),
        },
    };
    let mut results = TypeCheckResults::new();
    results.record_ty(ExpressionId(1), plain(5));
    results.record_access_permission(ExpressionId(1), Perm(6));

    let (analysis, last) = analyze(&results, &body);

    assert_eq!(last, node(5));
    assert_eq!(
        analysis.node_datas,
        vec![
            NodeData::Expression(ExpressionId(0)),
            NodeData::Expression(ExpressionId(1)),
            NodeData::Expression(ExpressionId(4)),
            NodeData::Expression(ExpressionId(2)),
            NodeData::Expression(ExpressionId(3)),
            NodeData::Join(ExpressionId(4)),
        ]
    );
    assert_eq!(
        analysis.cfg_edges,
        vec![
            (node(0), node(1)),
            (node(1), node(2)),
            (node(2), node(3)),
            (node(2), node(4)),
            (node(3), node(5)),
            (node(4), node(5)),
        ]
    );
    assert_eq!(in_degree(&analysis, last), 2);
    assert_eq!(analysis.used, vec![(Perm(5), node(2))]);
    assert_eq!(analysis.accesses, vec![(Perm(6), path(0), node(1))]);
}

#[test]
fn call_with_an_argument_of_unresolved_type() {
    // f(g()), where the type of g() is a variable that nothing has resolved
    let inner = Expression {
        id: ExpressionId(3),
        data: ExpressionData::Call {
            function: Box::new(read(2, Place::Entity(Entity(31)))),
            arguments: vec![],
        },
    };
    let body = Expression {
        id: ExpressionId(4),
        data: ExpressionData::Call {
            function: Box::new(read(1, Place::Entity(Entity(30)))),
            arguments: vec![inner],
        },
    };
    let mut results = TypeCheckResults::new();
    results.record_access_permission(ExpressionId(1), Perm(6));
    results.record_access_permission(ExpressionId(2), Perm(7));
    results.record_ty(ExpressionId(3), Ty { perm: Perm(8), base: Base::Unresolved(InferVar(0)) });

    let (analysis, last) = analyze(&results, &body);

    assert_eq!(last, node(4));
    assert_eq!(analysis.used, vec![(Perm(8), node(4))]);
    assert_eq!(
        analysis.cfg_edges,
        vec![(node(0), node(1)), (node(1), node(2)), (node(2), node(3)), (node(3), node(4))]
    );
    assert_eq!(
        analysis.accesses,
        vec![(Perm(6), path(0), node(1)), (Perm(7), path(1), node(2))]
    );
    assert_eq!(
        analysis.path_datas,
        vec![PathData::Entity(Entity(30)), PathData::Entity(Entity(31))]
    );
}
