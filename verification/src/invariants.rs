//! What every traversal keeps: the stores only grow at their ends, the
//! table of paths stays canonical, and every identity that a fact or an
//! edge holds stays the identity of something that is there.

use vstd::prelude::*;
use crate::analysis::{AnalysisModel, Node, NodeData, Path, PathData};
use crate::hir::{Expression, ExpressionData, IdentifiedExpression, Place};
use crate::results::TypeCheckResults;
use crate::ty::{Perm, Ty, lemma_uses_at_node};

verus! {

/// `later` starts with the entries of `earlier`, in their order.
pub open spec fn grown_from<A>(later: Seq<A>, earlier: Seq<A>) -> bool {
    &&& earlier.len() <= later.len()
    &&& forall|i: int| 0 <= i < earlier.len() ==> #[trigger] later[i] == earlier[i]
}

impl AnalysisModel {
    /// Every store of `self` is that of `earlier` with entries added at
    /// its end: nothing was removed, changed or moved.
    pub open spec fn extends(self, earlier: AnalysisModel) -> bool {
        &&& grown_from(self.node_datas, earlier.node_datas)
        &&& grown_from(self.cfg_edges, earlier.cfg_edges)
        &&& grown_from(self.path_datas, earlier.path_datas)
        &&& grown_from(self.owner_paths, earlier.owner_paths)
        &&& grown_from(self.accesses, earlier.accesses)
        &&& grown_from(self.overwritten, earlier.overwritten)
        &&& grown_from(self.traverse, earlier.traverse)
        &&& grown_from(self.used, earlier.used)
    }

    /// The nodes and the paths are few enough for each to have an identity
    /// of its own.
    pub open spec fn fits(self) -> bool {
        &&& self.node_datas.len() <= usize::MAX
        &&& self.path_datas.len() <= usize::MAX
    }

    /// `node` is the identity of a node of the analysis.
    pub open spec fn has_node(self, node: Node) -> bool {
        node.index < self.node_datas.len()
    }

    /// `path` is the identity of a path of the analysis.
    pub open spec fn has_path(self, path: Path) -> bool {
        path.index < self.path_datas.len()
    }

    /// Every edge joins two nodes of the analysis; every fact speaks of a
    /// node and a path of the analysis; the owner of a projection stands
    /// before it in the table; what is overwritten has no owner; and what
    /// is traversed is the owner of some path.
    pub open spec fn closed(self) -> bool {
        &&& forall|i: int|
            0 <= i < self.cfg_edges.len() ==> self.has_node((#[trigger] self.cfg_edges[i]).0)
                && self.has_node(self.cfg_edges[i].1)
        &&& forall|i: int|
            0 <= i < self.path_datas.len() ==> (
            (#[trigger] self.path_datas[i]).spec_owner() matches Some(owner) ==> owner.index < i)
        &&& forall|i: int|
            0 <= i < self.accesses.len() ==> self.has_path((#[trigger] self.accesses[i]).1)
                && self.has_node(self.accesses[i].2)
        &&& forall|i: int|
            0 <= i < self.overwritten.len() ==> {
                &&& self.has_path((#[trigger] self.overwritten[i]).0)
                &&& self.has_node(self.overwritten[i].1)
                &&& self.path_datas[self.overwritten[i].0.index as int].spec_owner() is None
            }
        &&& forall|i: int|
            0 <= i < self.traverse.len() ==> {
                &&& self.has_path((#[trigger] self.traverse[i]).0)
                &&& self.has_node(self.traverse[i].1)
                &&& self.owns_a_path(self.traverse[i].0)
            }
        &&& forall|i: int| 0 <= i < self.used.len() ==> self.has_node((#[trigger] self.used[i]).1)
    }

    /// Some path of the table is a projection of `owner`.
    pub open spec fn owns_a_path(self, owner: Path) -> bool {
        exists|j: int|
            0 <= j < self.path_datas.len() && (#[trigger] self.path_datas[j]).spec_owner() == Some(
                owner,
            )
    }

    /// None of the paths that `self` has and `earlier` had not is a
    /// computed projection.
    pub open spec fn adds_no_index(self, earlier: AnalysisModel) -> bool {
        forall|i: int|
            earlier.path_datas.len() <= i < self.path_datas.len() ==> !(
            #[trigger] self.path_datas[i] is Index)
    }

    /// What a step from `self`, entered from `start`, to `after`, completed
    /// at `last`, keeps: what was in the stores stays where it was; no
    /// computed projection is added to the paths; a canonical table of
    /// paths stays canonical; and a closed analysis
    /// stays closed, with `last` one of its nodes, if `start` was one and
    /// every node and path of `after` has an identity of its own.
    pub open spec fn keeps(self, start: Node, after: AnalysisModel, last: Node) -> bool {
        &&& after.extends(self)
        &&& after.adds_no_index(self)
        &&& self.canonical() ==> after.canonical()
        &&& self.closed() && self.has_node(start) && after.fits() ==> after.closed()
            && after.has_node(last)
    }

    /// What a lookup of a place from `self`, which gives `path` and leaves
    /// `after`, keeps: the same as a step, with `path` one of the paths of
    /// `after`.
    pub open spec fn keeps_path(self, after: AnalysisModel, path: Path) -> bool {
        &&& after.extends(self)
        &&& after.adds_no_index(self)
        &&& self.canonical() ==> after.canonical()
        &&& self.closed() && after.fits() ==> after.closed() && after.has_path(path)
    }
}

impl AnalysisModel {
    pub(crate) proof fn lemma_push_node_edge_keeps(self, start: Node, data: NodeData)
        ensures
            self.keeps(start, self.push_node_edge(start, data), self.next_node()),
            self.push_node_edge(start, data).node_datas.len() == self.node_datas.len() + 1,
    {
    }

    pub(crate) proof fn lemma_use_ty_keeps(self, node: Node, ty: Ty)
        ensures
            self.keeps(node, self.use_ty(node, ty), node),
            self.use_ty(node, ty).node_datas == self.node_datas,
    {
        lemma_uses_at_node(ty, node);
    }

    pub(crate) proof fn lemma_use_results_of_keeps(
        self,
        results: &TypeCheckResults,
        node: Node,
        list: Seq<Expression>,
        count: nat,
    )
        ensures
            self.keeps(node, self.use_results_of(results, node, list, count), node),
            self.use_results_of(results, node, list, count).node_datas == self.node_datas,
        decreases count,
    {
        if count == 0 || count > list.len() {
        } else {
            self.lemma_use_results_of_keeps(results, node, list, (count - 1) as nat);
            self.use_results_of(results, node, list, (count - 1) as nat).lemma_use_ty_keeps(
                node,
                results.spec_ty(list[count - 1].id),
            );
        }
    }

    pub(crate) proof fn lemma_use_results_of_fields_keeps(
        self,
        results: &TypeCheckResults,
        node: Node,
        fields: Seq<IdentifiedExpression>,
        count: nat,
    )
        ensures
            self.keeps(node, self.use_results_of_fields(results, node, fields, count), node),
            self.use_results_of_fields(results, node, fields, count).node_datas
                == self.node_datas,
        decreases count,
    {
        if count == 0 || count > fields.len() {
        } else {
            self.lemma_use_results_of_fields_keeps(results, node, fields, (count - 1) as nat);
            self.use_results_of_fields(
                results,
                node,
                fields,
                (count - 1) as nat,
            ).lemma_use_ty_keeps(node, results.spec_ty(fields[count - 1].expression.id));
        }
    }

    pub(crate) proof fn lemma_intern_keeps(self, data: PathData)
        ensures
            self.intern(data).extends(self),
            self.canonical() ==> self.intern(data).canonical(),
            self.intern(data).node_datas == self.node_datas,
            self.intern(data).path_datas.contains(data),
            self.canonical() && self.intern(data).fits() ==> {
                &&& self.intern(data).has_path(self.path_of(data))
                &&& self.intern(data).path_datas[self.path_of(data).index as int] == data
            },
            self.closed() && (data.spec_owner() matches Some(owner) ==> self.has_path(owner))
                && self.intern(data).fits() ==> self.intern(data).closed() && self.intern(
                data,
            ).has_path(self.path_of(data)),
    {
        if self.path_datas.contains(data) {
        } else {
            assert(self.path_datas.push(data).drop_last() =~= self.path_datas);
            assert(self.path_datas.push(data)[self.path_datas.len() as int] == data);
            if self.closed() && (data.spec_owner() matches Some(owner) ==> self.has_path(owner))
                && self.intern(data).fits() {
                let after = self.intern(data);
                assert forall|i: int| 0 <= i < after.traverse.len() implies after.owns_a_path(
                    (#[trigger] after.traverse[i]).0,
                ) by {
                    assert(self.owns_a_path(self.traverse[i].0));
                    let j = choose|j: int|
                        0 <= j < self.path_datas.len() && (
                        #[trigger] self.path_datas[j]).spec_owner() == Some(self.traverse[i].0);
                    assert(after.path_datas[j].spec_owner() == Some(after.traverse[i].0));
                }
            }
        }
    }

    pub(crate) proof fn lemma_access_keeps(self, perm: Perm, path: Path, node: Node)
        ensures
            self.access(perm, path, node).extends(self),
            self.canonical() ==> self.access(perm, path, node).canonical(),
            self.closed() && self.has_path(path) && self.has_node(node) ==> self.access(
                perm,
                path,
                node,
            ).closed(),
            self.access(perm, path, node).node_datas == self.node_datas,
            self.access(perm, path, node).path_datas == self.path_datas,
    {
    }

    /// An assignment to a path without an owner records that the path is
    /// overwritten, and nothing else. An assignment to a path with an
    /// owner records that the owner is traversed, once, and nothing else.
    pub proof fn lemma_assign_precise(self, path: Path, node: Node)
        ensures
            ({
                let after = self.assign(path, node);
                match self.path_datas[path.index as int].spec_owner() {
                    None => after == (AnalysisModel {
                        overwritten: self.overwritten.push((path, node)),
                        ..self
                    }),
                    Some(owner) => after == (AnalysisModel {
                        traverse: self.traverse.push((owner, node)),
                        ..self
                    }),
                }
            }),
    {
    }

    pub(crate) proof fn lemma_assign_keeps(self, path: Path, node: Node)
        ensures
            self.assign(path, node).extends(self),
            self.canonical() ==> self.assign(path, node).canonical(),
            self.closed() && self.has_path(path) && self.has_node(node) ==> self.assign(
                path,
                node,
            ).closed(),
            self.assign(path, node).node_datas == self.node_datas,
            self.assign(path, node).path_datas == self.path_datas,
    {
        if self.closed() && self.has_path(path) && self.has_node(node) {
            let after = self.assign(path, node);
            let data = self.path_datas[path.index as int];
            assert forall|i: int| 0 <= i < after.traverse.len() implies after.owns_a_path(
                (#[trigger] after.traverse[i]).0,
            ) by {
                if i < self.traverse.len() {
                    assert(self.owns_a_path(self.traverse[i].0));
                } else {
                    assert(data.spec_owner() == Some(after.traverse[i].0));
                }
            }
        }
    }

    /// Looking a place up keeps the analysis in order and gives a path of
    /// the table.
    pub proof fn lemma_resolve_place_keeps(self, place: Place)
        ensures
            self.keeps_path(self.resolve_place(place).0, self.resolve_place(place).1),
            self.resolve_place(place).0.node_datas == self.node_datas,
        decreases place,
    {
        match place {
            Place::Variable(variable) => {
                self.lemma_intern_keeps(PathData::Variable(variable));
            },
            Place::Entity(entity) => {
                self.lemma_intern_keeps(PathData::Entity(entity));
            },
            Place::Temporary(expression) => {
                self.lemma_intern_keeps(PathData::Temporary(expression.id));
            },
            Place::Field { owner, name } => {
                self.lemma_resolve_place_keeps(*owner);
                let (resolved, owner_path) = self.resolve_place(*owner);
                resolved.lemma_intern_keeps(PathData::Field { owner: owner_path, name: name.text });
            },
        }
    }

    /// The traversal of an expression only adds to the stores, at their
    /// ends, and no computed projection to the paths. It keeps a canonical
    /// table of paths canonical. And it keeps a
    /// closed analysis closed: every edge and every fact that it adds
    /// speaks of nodes and paths of the analysis, what it records as
    /// overwritten has no owner, and what it records as traversed is the
    /// owner of a path.
    pub proof fn lemma_flow_expression_keeps(
        self,
        results: &TypeCheckResults,
        start: Node,
        expression: Expression,
    )
        ensures
            self.keeps(
                start,
                self.flow_expression(results, start, expression).0,
                self.flow_expression(results, start, expression).1,
            ),
        decreases expression, 0nat,
    {
        let this = NodeData::Expression(expression.id);
        match expression.data {
            ExpressionData::Let { variable, initializer, body } => {
                self.lemma_flow_optional_keeps(results, start, initializer);
                let (evaluated, last) = self.flow_optional(results, start, initializer);
                let self_node = evaluated.next_node();
                evaluated.lemma_push_node_edge_keeps(last, this);
                let bound = evaluated.push_node_edge(last, this);
                let consumed = match initializer {
                    Some(value) => bound.use_result_of(results, self_node, value.id),
                    None => bound,
                };
                if let Some(value) = initializer {
                    bound.lemma_use_ty_keeps(self_node, results.spec_ty(value.id));
                }
                consumed.lemma_flow_expression_keeps(results, self_node, *body);
            },
            ExpressionData::Place { place } => {
                self.lemma_flow_place_keeps(results, start, place);
                let (evaluated, last) = self.flow_place(results, start, place);
                let self_node = evaluated.next_node();
                evaluated.lemma_push_node_edge_keeps(last, this);
                let entered = evaluated.push_node_edge(last, this);
                entered.lemma_resolve_place_keeps(place);
                let (resolved, path) = entered.resolve_place(place);
                resolved.lemma_access_keeps(
                    results.spec_access_permission(expression.id),
                    path,
                    self_node,
                );
            },
            ExpressionData::Assignment { place, value } => {
                self.lemma_flow_place_keeps(results, start, place);
                let (located, place_node) = self.flow_place(results, start, place);
                located.lemma_flow_expression_keeps(results, place_node, *value);
                let (evaluated, last) = located.flow_expression(results, place_node, *value);
                let self_node = evaluated.next_node();
                evaluated.lemma_push_node_edge_keeps(last, this);
                let entered = evaluated.push_node_edge(last, this);
                entered.lemma_resolve_place_keeps(place);
                let (resolved, path) = entered.resolve_place(place);
                resolved.lemma_assign_keeps(path, self_node);
            },
            ExpressionData::MethodCall { method, arguments } => {
                self.lemma_flow_expressions_keeps(results, start, arguments@, arguments@.len());
                let (evaluated, last) = self.flow_expressions(
                    results,
                    start,
                    arguments@,
                    arguments@.len(),
                );
                let self_node = evaluated.next_node();
                evaluated.lemma_push_node_edge_keeps(last, this);
                evaluated.push_node_edge(last, this).lemma_use_results_of_keeps(
                    results,
                    self_node,
                    arguments@,
                    arguments@.len(),
                );
            },
            ExpressionData::Call { function, arguments } => {
                self.lemma_flow_expression_keeps(results, start, *function);
                let (called, function_node) = self.flow_expression(results, start, *function);
                called.lemma_flow_expressions_keeps(
                    results,
                    function_node,
                    arguments@,
                    arguments@.len(),
                );
                let (evaluated, last) = called.flow_expressions(
                    results,
                    function_node,
                    arguments@,
                    arguments@.len(),
                );
                let self_node = evaluated.next_node();
                evaluated.lemma_push_node_edge_keeps(last, this);
                evaluated.push_node_edge(last, this).lemma_use_results_of_keeps(
                    results,
                    self_node,
                    arguments@,
                    arguments@.len(),
                );
            },
            ExpressionData::If { condition, if_true, if_false } => {
                self.lemma_flow_expression_keeps(results, start, *condition);
                let (evaluated, last) = self.flow_expression(results, start, *condition);
                let self_node = evaluated.next_node();
                evaluated.lemma_push_node_edge_keeps(last, this);
                let entered = evaluated.push_node_edge(last, this);
                entered.lemma_use_ty_keeps(self_node, results.spec_ty(condition.id));
                let tested = entered.use_result_of(results, self_node, condition.id);
                tested.lemma_flow_expression_keeps(results, self_node, *if_true);
                let (after_true, true_node) = tested.flow_expression(results, self_node, *if_true);
                after_true.lemma_flow_expression_keeps(results, self_node, *if_false);
            },
            ExpressionData::Binary { operator, left, right } => {
                self.lemma_flow_expression_keeps(results, start, *left);
                let (after_left, left_node) = self.flow_expression(results, start, *left);
                after_left.lemma_flow_expression_keeps(results, left_node, *right);
                let (evaluated, last) = after_left.flow_expression(results, left_node, *right);
                let self_node = evaluated.next_node();
                evaluated.lemma_push_node_edge_keeps(last, this);
                let entered = evaluated.push_node_edge(last, this);
                entered.lemma_use_ty_keeps(self_node, results.spec_ty(left.id));
                entered.use_result_of(results, self_node, left.id).lemma_use_ty_keeps(
                    self_node,
                    results.spec_ty(right.id),
                );
            },
            ExpressionData::Unary { operator, value } => {
                self.lemma_flow_expression_keeps(results, start, *value);
                let (evaluated, last) = self.flow_expression(results, start, *value);
                let self_node = evaluated.next_node();
                evaluated.lemma_push_node_edge_keeps(last, this);
                evaluated.push_node_edge(last, this).lemma_use_ty_keeps(
                    self_node,
                    results.spec_ty(value.id),
                );
            },
            ExpressionData::Literal { data } => {
                self.lemma_push_node_edge_keeps(start, this);
            },
            ExpressionData::Unit => {
                self.lemma_push_node_edge_keeps(start, this);
            },
            ExpressionData::Error => {
                self.lemma_push_node_edge_keeps(start, this);
            },
            ExpressionData::Aggregate { entity, fields } => {
                self.lemma_flow_fields_keeps(results, start, fields@, fields@.len());
                let (evaluated, last) = self.flow_fields(results, start, fields@, fields@.len());
                let self_node = evaluated.next_node();
                evaluated.lemma_push_node_edge_keeps(last, this);
                evaluated.push_node_edge(last, this).lemma_use_results_of_fields_keeps(
                    results,
                    self_node,
                    fields@,
                    fields@.len(),
                );
            },
            ExpressionData::Sequence { first, second } => {
                self.lemma_flow_expression_keeps(results, start, *first);
                let (after_first, first_node) = self.flow_expression(results, start, *first);
                after_first.lemma_flow_expression_keeps(results, first_node, *second);
                let (evaluated, last) = after_first.flow_expression(results, first_node, *second);
                evaluated.lemma_push_node_edge_keeps(last, this);
            },
        }
    }

    pub(crate) proof fn lemma_flow_place_keeps(
        self,
        results: &TypeCheckResults,
        start: Node,
        place: Place,
    )
        ensures
            self.keeps(
                start,
                self.flow_place(results, start, place).0,
                self.flow_place(results, start, place).1,
            ),
        decreases place, 0nat,
    {
        match place {
            Place::Variable(_) => {},
            Place::Entity(_) => {},
            Place::Temporary(expression) => {
                self.lemma_flow_expression_keeps(results, start, *expression);
            },
            Place::Field { owner, name } => {
                self.lemma_flow_place_keeps(results, start, *owner);
            },
        }
    }

    pub(crate) proof fn lemma_flow_optional_keeps(
        self,
        results: &TypeCheckResults,
        start: Node,
        option: Option<Box<Expression>>,
    )
        ensures
            self.keeps(
                start,
                self.flow_optional(results, start, option).0,
                self.flow_optional(results, start, option).1,
            ),
        decreases option, 0nat,
    {
        match option {
            Some(expression) => {
                self.lemma_flow_expression_keeps(results, start, *expression);
            },
            None => {},
        }
    }

    pub(crate) proof fn lemma_flow_expressions_keeps(
        self,
        results: &TypeCheckResults,
        start: Node,
        list: Seq<Expression>,
        count: nat,
    )
        ensures
            self.keeps(
                start,
                self.flow_expressions(results, start, list, count).0,
                self.flow_expressions(results, start, list, count).1,
            ),
        decreases list, count,
    {
        if count == 0 || count > list.len() {
        } else {
            self.lemma_flow_expressions_keeps(results, start, list, (count - 1) as nat);
            let (evaluated, last) = self.flow_expressions(
                results,
                start,
                list,
                (count - 1) as nat,
            );
            evaluated.lemma_flow_expression_keeps(results, last, list[count - 1]);
        }
    }

    pub(crate) proof fn lemma_flow_fields_keeps(
        self,
        results: &TypeCheckResults,
        start: Node,
        fields: Seq<IdentifiedExpression>,
        count: nat,
    )
        ensures
            self.keeps(
                start,
                self.flow_fields(results, start, fields, count).0,
                self.flow_fields(results, start, fields, count).1,
            ),
        decreases fields, count,
    {
        if count == 0 || count > fields.len() {
        } else {
            self.lemma_flow_fields_keeps(results, start, fields, (count - 1) as nat);
            let (evaluated, last) = self.flow_fields(results, start, fields, (count - 1) as nat);
            evaluated.lemma_flow_expression_keeps(results, last, fields[count - 1].expression);
        }
    }
}

} // verus!
