use flow_analysis::analysis::{Analysis, Node, NodeData, Path, PathData};
use flow_analysis::builder::AnalysisBuilder;
use flow_analysis::hir::{
    BinaryOperator, Entity, Expression, ExpressionData, ExpressionId, GlobalIdentifier, Identifier,
    LiteralData, LiteralKind, Place, UnaryOperator, Variable,
};
use flow_analysis::results::TypeCheckResults;
use flow_analysis::ty::{Base, BaseData, BaseKind, Perm, Ty};

fn expression(id: usize, data: ExpressionData) -> Expression {
    Expression { id: ExpressionId(id), data }
}

fn literal(id: usize) -> Expression {
    expression(
        id,
        ExpressionData::Literal {
            data: LiteralData { kind: LiteralKind::Bool, value: GlobalIdentifier(id) },
        },
    )
}

fn read(id: usize, place: Place) -> Expression {
    expression(id, ExpressionData::Place { place })
}

fn field(owner: Place, name: usize) -> Place {
    Place::Field { owner: Box::new(owner), name: Identifier { text: GlobalIdentifier(name) } }
}

fn plain(perm: usize) -> Ty {
    Ty {
        perm: Perm(perm),
        base: Base::Resolved(BaseData { kind: BaseKind::Named(Entity(0)), generics: vec![] }),
    }
}

fn node(index: usize) -> Node {
    Node { index }
}

fn path(index: usize) -> Path {
    Path { index }
}

/// `x.f = !(a + b); if x.f { y = 1 } else { y.g = 2 }`, with identities
/// 1 to 14.
fn sample() -> Expression {
    let sum = expression(
        3,
        ExpressionData::Binary {
            operator: BinaryOperator::Add,
            left: Box::new(read(1, Place::Variable(Variable(1)))),
            right: Box::new(read(2, Place::Variable(Variable(2)))),
        },
    );
    let negated = expression(
        4,
        ExpressionData::Unary { operator: UnaryOperator::Not, value: Box::new(sum) },
    );
    let store = expression(
        5,
        ExpressionData::Assignment {
            place: field(Place::Variable(Variable(3)), 20),
            value: Box::new(negated),
        },
    );
    let choice = expression(
        13,
        ExpressionData::If {
            condition: Box::new(read(6, field(Place::Variable(Variable(3)), 20))),
            if_true: Box::new(expression(
                9,
                ExpressionData::Assignment {
                    place: Place::Variable(Variable(4)),
                    value: Box::new(literal(8)),
                },
            )),
            if_false: Box::new(expression(
                12,
                ExpressionData::Assignment {
                    place: field(Place::Variable(Variable(4)), 21),
                    value: Box::new(literal(11)),
                },
            )),
        },
    );
    expression(14, ExpressionData::Sequence { first: Box::new(store), second: Box::new(choice) })
}

fn sample_results() -> TypeCheckResults {
    let mut results = TypeCheckResults::new();
    for id in [1, 2, 3, 6] {
        results.record_ty(ExpressionId(id), plain(100 + id));
    }
    for id in [1, 2, 6] {
        results.record_access_permission(ExpressionId(id), Perm(200 + id));
    }
    results
}

fn analyze(results: &TypeCheckResults, body: &Expression) -> (Analysis, Node) {
    assert!(results.covers(body));
    let mut builder = AnalysisBuilder::new(results);
    let entry = builder.push_node(NodeData::Expression(ExpressionId(0)));
    let last = builder.node(entry, body);
    (builder.into_analysis(), last)
}

#[test]
fn same_descriptor_same_identity_and_one_owner_pair() {
    let results = TypeCheckResults::new();
    let mut builder = AnalysisBuilder::new(&results);
    let x = builder.create_path(PathData::Variable(Variable(7)));
    let same = builder.create_path(PathData::Variable(Variable(7)));
    assert_eq!(x, path(0));
    assert_eq!(same, x);
    let projection = PathData::Field { owner: x, name: GlobalIdentifier(3) };
    let f = builder.create_path(projection);
    let again = builder.create_path(projection);
    let later = builder.create_path(PathData::Variable(Variable(7)));
    assert_eq!(f, path(1));
    assert_eq!(again, f);
    assert_eq!(later, x);
    let analysis = builder.into_analysis();
    assert_eq!(analysis.path_datas, vec![PathData::Variable(Variable(7)), projection]);
    assert_eq!(analysis.owner_paths, vec![(x, f)]);
}

#[test]
fn distinct_descriptors_get_distinct_identities() {
    let results = TypeCheckResults::new();
    let mut builder = AnalysisBuilder::new(&results);
    let owner = builder.create_path(PathData::Variable(Variable(0)));
    let descriptors = vec![
        PathData::Variable(Variable(1)),
        PathData::Entity(Entity(1)),
        PathData::Temporary(ExpressionId(1)),
        PathData::Field { owner, name: GlobalIdentifier(1) },
        PathData::Index { owner },
        PathData::Variable(Variable(2)),
        PathData::Entity(Entity(0)),
        PathData::Temporary(ExpressionId(0)),
        PathData::Field { owner, name: GlobalIdentifier(0) },
        PathData::Field { owner: path(1), name: GlobalIdentifier(1) },
        PathData::Index { owner: path(1) },
    ];
    let mut identities = vec![owner];
    for descriptor in descriptors.iter() {
        let identity = builder.create_path(*descriptor);
        assert!(!identities.contains(&identity));
        identities.push(identity);
    }
    for (position, descriptor) in descriptors.iter().enumerate() {
        assert_eq!(builder.create_path(*descriptor), path(position + 1));
    }
    let analysis = builder.into_analysis();
    assert_eq!(analysis.path_datas.len(), 12);
    assert_eq!(analysis.path_datas[1..], descriptors[..]);
    assert_eq!(
        analysis.owner_paths,
        vec![
            (owner, path(4)),
            (owner, path(5)),
            (owner, path(9)),
            (path(1), path(10)),
            (path(1), path(11)),
        ]
    );
}

#[test]
fn overwritten_if_and_only_if_the_path_has_no_owner() {
    let results = TypeCheckResults::new();
    let mut builder = AnalysisBuilder::new(&results);
    let at = builder.push_node(NodeData::Expression(ExpressionId(0)));
    let variable = builder.create_path(PathData::Variable(Variable(1)));
    let entity = builder.create_path(PathData::Entity(Entity(1)));
    let temporary = builder.create_path(PathData::Temporary(ExpressionId(1)));
    let projection = builder.create_path(PathData::Field { owner: entity, name: GlobalIdentifier(1) });
    let indexed = builder.create_path(PathData::Index { owner: projection });
    for assigned in [variable, entity, temporary, projection, indexed] {
        builder.generate_assignment_facts(assigned, at);
    }
    let analysis = builder.into_analysis();
    assert_eq!(analysis.overwritten, vec![(variable, at), (entity, at), (temporary, at)]);
    assert_eq!(analysis.traverse, vec![(entity, at), (projection, at)]);
    for (position, data) in analysis.path_datas.iter().enumerate() {
        let overwritten = analysis.overwritten.iter().any(|fact| fact.0 == path(position));
        assert_eq!(overwritten, data.owner().is_none());
        assert_eq!(data.precise(), data.owner().is_none());
    }
}

#[test]
fn expression_without_conditional_adds_a_straight_line() {
    // ((1; 2) + !3).f = (4; 5)
    let left = expression(
        3,
        ExpressionData::Sequence { first: Box::new(literal(1)), second: Box::new(literal(2)) },
    );
    let right = expression(
        5,
        ExpressionData::Unary { operator: UnaryOperator::Not, value: Box::new(literal(4)) },
    );
    let sum = expression(
        6,
        ExpressionData::Binary {
            operator: BinaryOperator::Add,
            left: Box::new(left),
            right: Box::new(right),
        },
    );
    let value = expression(
        9,
        ExpressionData::Sequence { first: Box::new(literal(7)), second: Box::new(literal(8)) },
    );
    let body = expression(
        10,
        ExpressionData::Assignment {
            place: field(Place::Temporary(Box::new(sum)), 20),
            value: Box::new(value),
        },
    );
    let mut results = TypeCheckResults::new();
    results.record_ty(ExpressionId(3), plain(1));
    results.record_ty(ExpressionId(4), plain(2));
    results.record_ty(ExpressionId(5), plain(3));

    let (analysis, last) = analyze(&results, &body);

    assert_eq!(analysis.node_datas.len(), 11);
    assert_eq!(last, node(10));
    let line: Vec<(Node, Node)> = (0..10).map(|i| (node(i), node(i + 1))).collect();
    assert_eq!(analysis.cfg_edges, line);
}

#[test]
fn join_has_two_incoming_edges_whatever_the_branches() {
    let (analysis, last) = analyze(&sample_results(), &sample());
    let joins: Vec<usize> = (0..analysis.node_datas.len())
        .filter(|i| matches!(analysis.node_datas[*i], NodeData::Join(_)))
        .collect();
    assert_eq!(joins.len(), 1);
    let join = node(joins[0]);
    let into: Vec<(Node, Node)> =
        analysis.cfg_edges.iter().filter(|edge| edge.1 == join).cloned().collect();
    assert_eq!(into.len(), 2);
    assert!(into[0].0 != into[1].0);
    // The sequence completes at a node of its own, entered from the join.
    assert_eq!(analysis.cfg_edges.last(), Some(&(join, last)));
}

#[test]
fn every_edge_leads_to_a_later_node() {
    let (analysis, _) = analyze(&sample_results(), &sample());
    for (from, to) in analysis.cfg_edges.iter() {
        assert!(from.index < to.index);
        assert!(to.index < analysis.node_datas.len());
    }
}

#[test]
fn every_fact_speaks_of_what_is_there() {
    let (analysis, _) = analyze(&sample_results(), &sample());
    let nodes = analysis.node_datas.len();
    let paths = analysis.path_datas.len();
    assert!(analysis.accesses.iter().all(|fact| fact.1.index < paths && fact.2.index < nodes));
    assert!(analysis.overwritten.iter().all(|fact| fact.0.index < paths && fact.1.index < nodes));
    assert!(analysis.traverse.iter().all(|fact| fact.0.index < paths && fact.1.index < nodes));
    assert!(analysis.used.iter().all(|fact| fact.1.index < nodes));
    for fact in analysis.overwritten.iter() {
        assert!(analysis.path_datas[fact.0.index].owner().is_none());
    }
    for fact in analysis.traverse.iter() {
        assert!(analysis.path_datas.iter().any(|data| data.owner() == Some(fact.0)));
    }
    for (position, data) in analysis.path_datas.iter().enumerate() {
        if let Some(owner) = data.owner() {
            assert!(owner.index < position);
        }
    }
    assert_eq!(
        analysis.overwritten,
        vec![(path(4), node(9))]
    );
    assert_eq!(
        analysis.traverse,
        vec![(path(2), node(5)), (path(4), node(11))]
    );
}

#[test]
fn building_twice_gives_the_same_analysis() {
    let results = sample_results();
    let (first, first_last) = analyze(&results, &sample());
    let (second, second_last) = analyze(&results, &sample());
    assert_eq!(first, second);
    assert_eq!(first_last, second_last);
}

#[test]
fn building_adds_to_what_is_there_and_changes_none_of_it() {
    let results = sample_results();
    let mut builder = AnalysisBuilder::new(&results);
    let entry = builder.push_node(NodeData::Expression(ExpressionId(0)));
    let first_last = builder.node(entry, &sample());
    let before = Analysis {
        node_datas: builder.analysis().node_datas.clone(),
        cfg_edges: builder.analysis().cfg_edges.clone(),
        path_datas: builder.analysis().path_datas.clone(),
        owner_paths: builder.analysis().owner_paths.clone(),
        accesses: builder.analysis().accesses.clone(),
        overwritten: builder.analysis().overwritten.clone(),
        traverse: builder.analysis().traverse.clone(),
        used: builder.analysis().used.clone(),
    };
    builder.node(first_last, &sample());
    let after = builder.into_analysis();
    assert_eq!(after.node_datas[..before.node_datas.len()], before.node_datas[..]);
    assert_eq!(after.cfg_edges[..before.cfg_edges.len()], before.cfg_edges[..]);
    assert_eq!(after.accesses[..before.accesses.len()], before.accesses[..]);
    assert_eq!(after.overwritten[..before.overwritten.len()], before.overwritten[..]);
    assert_eq!(after.traverse[..before.traverse.len()], before.traverse[..]);
    assert_eq!(after.used[..before.used.len()], before.used[..]);
    // The second traversal meets only places that the first one met.
    assert_eq!(after.path_datas, before.path_datas);
    assert_eq!(after.owner_paths, before.owner_paths);
    assert_eq!(after.node_datas.len(), 2 * before.node_datas.len() - 1);
}

#[test]
fn coverage_is_refused_where_a_lookup_has_no_entry() {
    let full = sample_results();
    assert!(full.covers(&sample()));
    assert!(!TypeCheckResults::new().covers(&sample()));

    let mut no_condition_type = TypeCheckResults::new();
    for id in [1, 2, 3] {
        no_condition_type.record_ty(ExpressionId(id), plain(id));
    }
    for id in [1, 2, 6] {
        no_condition_type.record_access_permission(ExpressionId(id), Perm(id));
    }
    assert!(!no_condition_type.covers(&sample()));
    no_condition_type.record_ty(ExpressionId(6), plain(6));
    assert!(no_condition_type.covers(&sample()));

    let mut no_read_permission = TypeCheckResults::new();
    no_read_permission.record_ty(ExpressionId(1), plain(1));
    let reading = read(1, Place::Variable(Variable(1)));
    assert!(!no_read_permission.covers(&reading));
    no_read_permission.record_access_permission(ExpressionId(1), Perm(1));
    assert!(no_read_permission.covers(&reading));
    assert!(no_read_permission.has_ty(ExpressionId(1)));
    assert!(!no_read_permission.has_ty(ExpressionId(2)));
    assert_eq!(no_read_permission.access_permission(ExpressionId(1)), Perm(1));
    assert_eq!(no_read_permission.ty(ExpressionId(1)), &plain(1));
}

#[test]
fn two_edges_leave_a_node_only_where_a_conditional_is_tested() {
    let (analysis, last) = analyze(&sample_results(), &sample());
    let out_degree = |from: Node| analysis.cfg_edges.iter().filter(|edge| edge.0 == from).count();
    assert_eq!(out_degree(last), 0);
    assert_eq!(out_degree(node(0)), 1);
    for index in 1..analysis.node_datas.len() - 1 {
        let tested = analysis.node_datas[index] == NodeData::Expression(ExpressionId(13));
        assert_eq!(out_degree(node(index)), if tested { 2 } else { 1 });
    }
}

#[test]
fn graph_does_not_depend_on_the_types() {
    let (first, first_last) = analyze(&sample_results(), &sample());
    let mut other = sample_results();
    for id in [1, 2, 3, 6] {
        other.record_ty(
            ExpressionId(id),
            Ty {
                perm: Perm(id),
                base: Base::Resolved(BaseData {
                    kind: BaseKind::Error,
                    generics: vec![plain(50), plain(51)],
                }),
            },
        );
    }
    let (second, second_last) = analyze(&other, &sample());
    assert_eq!(first.node_datas, second.node_datas);
    assert_eq!(first.cfg_edges, second.cfg_edges);
    assert_eq!(first_last, second_last);
    assert!(first.used != second.used);
}

#[test]
fn traversal_adds_no_computed_projection() {
    let (analysis, _) = analyze(&sample_results(), &sample());
    assert_eq!(analysis.path_datas.len(), 6);
    assert!(analysis.path_datas.iter().all(|data| !matches!(data, PathData::Index { .. })));
}

#[test]
fn more_than_one_edge_leads_into_a_join_only() {
    let (analysis, _) = analyze(&sample_results(), &sample());
    let in_degree = |to: Node| analysis.cfg_edges.iter().filter(|edge| edge.1 == to).count();
    assert_eq!(in_degree(node(0)), 0);
    for index in 1..analysis.node_datas.len() {
        let join = matches!(analysis.node_datas[index], NodeData::Join(_));
        assert_eq!(in_degree(node(index)), if join { 2 } else { 1 });
    }
}
