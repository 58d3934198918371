use flow_analysis::analysis::{Node, NodeData};
use flow_analysis::builder::AnalysisBuilder;
use flow_analysis::hir::{Entity, ExpressionId};
use flow_analysis::results::TypeCheckResults;
use flow_analysis::ty::{Base, BaseData, BaseKind, InferVar, Perm, Ty};

fn named(perm: usize, generics: Vec<Ty>) -> Ty {
    Ty {
        perm: Perm(perm),
        base: Base::Resolved(BaseData { kind: BaseKind::Named(Entity(perm)), generics }),
    }
}

fn unresolved(perm: usize, var: usize) -> Ty {
    Ty { perm: Perm(perm), base: Base::Unresolved(InferVar(var)) }
}

fn uses_of(ty: &Ty) -> Vec<(Perm, Node)> {
    let results = TypeCheckResults::new();
    let mut builder = AnalysisBuilder::new(&results);
    let at = builder.push_node(NodeData::Expression(ExpressionId(0)));
    builder.use_ty(at, ty);
    let analysis = builder.into_analysis();
    assert!(analysis.used.iter().all(|used| used.1 == at));
    analysis.used
}

fn perms(list: &[usize]) -> Vec<(Perm, Node)> {
    list.iter().map(|perm| (Perm(*perm), Node { index: 0 })).collect()
}

#[test]
fn type_without_generics_is_used_once() {
    assert_eq!(uses_of(&named(1, vec![])), perms(&[1]));
}

#[test]
fn nested_type_is_used_once_for_each_layer() {
    // Outer<Inner<T>>: depth 2, three uses
    let ty = named(1, vec![named(2, vec![named(3, vec![])])]);
    assert_eq!(uses_of(&ty), perms(&[1, 2, 3]));
}

#[test]
fn deeply_nested_type_has_depth_plus_one_uses() {
    let depth = 40;
    let mut ty = named(depth, vec![]);
    for layer in (0..depth).rev() {
        ty = named(layer, vec![ty]);
    }
    let uses = uses_of(&ty);
    assert_eq!(uses.len(), depth + 1);
    assert_eq!(uses, perms(&(0..=depth).collect::<Vec<usize>>()));
}

#[test]
fn unresolved_type_is_used_for_its_permission_only() {
    assert_eq!(uses_of(&unresolved(1, 0)), perms(&[1]));
}

#[test]
fn nothing_is_used_below_an_unresolved_base() {
    // Outer<?0>: the argument's own permission is used, nothing below it
    let ty = named(1, vec![unresolved(2, 0)]);
    assert_eq!(uses_of(&ty), perms(&[1, 2]));
}

#[test]
fn generic_arguments_are_used_left_to_right_and_depth_first() {
    // Pair<A<X>, ?0, B>
    let ty = named(1, vec![named(2, vec![named(3, vec![])]), unresolved(4, 0), named(5, vec![])]);
    assert_eq!(uses_of(&ty), perms(&[1, 2, 3, 4, 5]));
}

#[test]
fn use_of_a_result_looks_its_type_up() {
    let mut results = TypeCheckResults::new();
    results.record_ty(ExpressionId(7), named(1, vec![named(2, vec![])]));
    results.record_ty(ExpressionId(8), named(3, vec![]));
    let mut builder = AnalysisBuilder::new(&results);
    let at = builder.push_node(NodeData::Expression(ExpressionId(0)));
    builder.use_result_of(at, ExpressionId(7));
    let analysis = builder.into_analysis();
    assert_eq!(analysis.used, perms(&[1, 2]));
}

#[test]
fn shallow_resolution_gives_the_data_or_the_variable() {
    let known = named(1, vec![named(2, vec![])]);
    match known.base.shallow_resolve_data() {
        Ok(data) => {
            assert_eq!(data.kind, BaseKind::Named(Entity(1)));
            assert_eq!(data.generics.len(), 1);
            assert_eq!(data.generics[0].perm, Perm(2));
        },
        Err(_) => panic!("a resolved base must resolve"),
    }
    let open = unresolved(1, 9);
    assert_eq!(open.base.shallow_resolve_data(), Err(InferVar(9)));
}
