//! The builder: it walks an expression and fills an analysis with the
//! control-flow graph and the facts of what it has walked.

use vstd::prelude::*;
use indexmap::IndexMap;
use rustc_hash::FxBuildHasher;
use crate::analysis::{Analysis, AnalysisModel, Node, NodeData, Path, PathData};
use crate::hir::{Expression, ExpressionId, IdentifiedExpression, Place};
use crate::path_table::{insert_full, new_table, table_keys};
use crate::results::TypeCheckResults;
use crate::ty::{Base, Perm, Ty, uses_of_first};

verus! {

/// An analysis under construction, with the lookup tables that the
/// construction reads.
pub struct AnalysisBuilder<'me> {
    analysis: Analysis,
    results: &'me TypeCheckResults,
    /// The key of each descriptor in `analysis.path_datas`, in the same
    /// order, to find a descriptor's position by.
    path_table: IndexMap<(u8, usize, usize), (), FxBuildHasher>,
}

impl<'me> View for AnalysisBuilder<'me> {
    type V = AnalysisModel;

    closed spec fn view(&self) -> AnalysisModel {
        self.analysis@
    }
}

impl<'me> AnalysisBuilder<'me> {
    /// The lookup tables that the builder reads.
    pub closed spec fn spec_results(&self) -> &TypeCheckResults {
        self.results
    }

    /// The lookup tables that the builder reads.
    #[verifier::when_used_as_spec(spec_results)]
    pub fn results(&self) -> (results: &'me TypeCheckResults)
        ensures
            results == self.spec_results(),
    {
        self.results
    }

    /// The index of descriptors holds the keys of the table of paths, in
    /// the order of the table.
    pub closed spec fn table_agrees(&self) -> bool {
        table_keys(self.path_table) == self.analysis.path_datas@.map_values(
            |data: PathData| data.spec_key(),
        )
    }

    /// The builder is in order: its index agrees with its table of paths,
    /// and the table is canonical.
    pub open spec fn well_formed(&self) -> bool {
        &&& self.table_agrees()
        &&& self@.canonical()
    }

    /// A builder whose analysis is empty.
    pub fn new(results: &'me TypeCheckResults) -> (builder: AnalysisBuilder<'me>)
        ensures
            builder@ == AnalysisModel::empty(),
            builder.results() == results,
            builder.well_formed(),
    {
        let builder = AnalysisBuilder {
            analysis: Analysis::new(),
            results,
            path_table: new_table(),
        };
        assert(builder.analysis.path_datas@.map_values(|data: PathData| data.spec_key())
            =~= Seq::<(u8, usize, usize)>::empty());
        builder
    }

    /// The analysis of a builder has few enough nodes and paths for each
    /// to have an identity of its own.
    pub proof fn lemma_fits(&self)
        ensures
            self@.fits(),
    {
        assert(self.analysis.node_datas@.len() == self.analysis.node_datas.len());
        assert(self.analysis.path_datas@.len() == self.analysis.path_datas.len());
    }

    /// The analysis as it stands.
    pub fn analysis(&self) -> (analysis: &Analysis)
        ensures
            analysis@ == self@,
    {
        &self.analysis
    }

    /// Ends the construction and hands the analysis out.
    pub fn into_analysis(self) -> (analysis: Analysis)
        ensures
            analysis@ == self@,
    {
        self.analysis
    }

    /// Adds a node tagged `data`, with no edge yet.
    pub fn push_node(&mut self, data: NodeData) -> (node: Node)
        requires
            old(self).well_formed(),
        ensures
            final(self)@ == old(self)@.push_node(data),
            node == old(self)@.next_node(),
            final(self).results() == old(self).results(),
            final(self).well_formed(),
    {
        let node = Node { index: self.analysis.node_datas.len() };
        self.analysis.node_datas.push(data);
        node
    }

    /// Adds a node tagged `data` and the edge from `start_node` to it.
    pub fn push_node_edge(&mut self, start_node: Node, data: NodeData) -> (node: Node)
        requires
            old(self).well_formed(),
        ensures
            final(self)@ == old(self)@.push_node_edge(start_node, data),
            node == old(self)@.next_node(),
            final(self).results() == old(self).results(),
            final(self).well_formed(),
    {
        let node = self.push_node(data);
        self.push_edge(start_node, node);
        node
    }

    /// Adds the edge from `from` to `to`.
    pub fn push_edge(&mut self, from: Node, to: Node)
        requires
            old(self).well_formed(),
        ensures
            final(self)@ == old(self)@.push_edge(from, to),
            final(self).results() == old(self).results(),
            final(self).well_formed(),
    {
        self.analysis.cfg_edges.push((from, to));
    }

    /// Looks `path_data` up in the table of paths and enters it if it is
    /// new. A descriptor that is entered twice keeps the identity that it
    /// got the first time, and its pair in the owner relation is not
    /// entered again.
    pub fn create_path(&mut self, path_data: PathData) -> (path: Path)
        requires
            old(self).well_formed(),
        ensures
            final(self)@ == old(self)@.intern(path_data),
            path == old(self)@.path_of(path_data),
            path.index < final(self)@.path_datas.len(),
            final(self)@.path_datas[path.index as int] == path_data,
            final(self).results() == old(self).results(),
            final(self).well_formed(),
    {
        let ghost paths = self@.path_datas;
        let ghost keys = paths.map_values(|data: PathData| data.spec_key());
        proof {
            // The key of a descriptor is in the index exactly if the
            // descriptor is in the table.
            if paths.contains(path_data) {
                let i = paths.index_of(path_data);
                assert(keys[i] == path_data.spec_key());
            }
            if keys.contains(path_data.spec_key()) {
                let i = keys.index_of(path_data.spec_key());
                paths[i].lemma_key_injective(path_data);
            }
        }
        let (index, earlier) = insert_full(&mut self.path_table, path_data.key());
        match earlier {
            Some(_) => {
                proof {
                    paths[index as int].lemma_key_injective(path_data);
                }
                Path { index }
            },
            None => {
                let path = Path { index: self.analysis.path_datas.len() };
                assert(index == path.index);
                self.analysis.path_datas.push(path_data);
                if let Some(owner) = path_data.owner() {
                    self.analysis.owner_paths.push((owner, path));
                }
                proof {
                    assert(paths.push(path_data).map_values(|data: PathData| data.spec_key())
                        =~= keys.push(path_data.spec_key()));
                    assert(paths.push(path_data).drop_last() =~= paths);
                }
                path
            },
        }
    }

    /// The path that `place` denotes. The owner of a field is looked up
    /// before the field.
    pub fn path(&mut self, place: &Place) -> (path: Path)
        requires
            old(self).well_formed(),
        ensures
            (final(self)@, path) == old(self)@.resolve_place(*place),
            path.index < final(self)@.path_datas.len(),
            final(self).results() == old(self).results(),
            final(self).well_formed(),
        decreases place,
    {
        match place {
            Place::Variable(variable) => self.create_path(PathData::Variable(*variable)),
            Place::Entity(entity) => self.create_path(PathData::Entity(*entity)),
            Place::Temporary(expression) => self.create_path(PathData::Temporary(expression.id)),
            Place::Field { owner, name } => {
                let owner = self.path(owner);
                self.create_path(PathData::Field { owner, name: name.text })
            },
        }
    }

    /// Records that the expression at `node` reads `path`, which takes
    /// `perm`.
    pub fn access(&mut self, perm: Perm, path: Path, node: Node)
        requires
            old(self).well_formed(),
        ensures
            final(self)@ == old(self)@.access(perm, path, node),
            final(self).results() == old(self).results(),
            final(self).well_formed(),
    {
        self.analysis.accesses.push((perm, path, node));
    }

    /// Records an assignment to `path` at `node`: the path is overwritten
    /// if and only if it has no owner, and its owner is traversed if and
    /// only if it has one.
    pub fn generate_assignment_facts(&mut self, path: Path, node: Node)
        requires
            old(self).well_formed(),
            path.index < old(self)@.path_datas.len(),
        ensures
            final(self)@ == old(self)@.assign(path, node),
            final(self).results() == old(self).results(),
            final(self).well_formed(),
    {
        let path_data = self.analysis.path_datas[path.index];
        if path_data.precise() {
            self.analysis.overwritten.push((path, node));
        }
        if let Some(owner) = path_data.owner() {
            self.analysis.traverse.push((owner, node));
        }
    }

    /// Records that the value of `expression` is consumed at `node`.
    pub fn use_result_of(&mut self, node: Node, expression: ExpressionId)
        requires
            old(self).well_formed(),
            old(self).results().has_ty(expression),
        ensures
            final(self)@ == old(self)@.use_result_of(old(self).results(), node, expression),
            final(self).results() == old(self).results(),
            final(self).well_formed(),
    {
        let results = self.results;
        self.use_ty(node, results.ty(expression));
    }

    /// Records that a value of type `ty` flows through `node`: one use for
    /// the permission of `ty`, then, if its base is resolved, the uses of
    /// each generic argument in turn, all at `node`. Below a base that is
    /// not resolved nothing is recorded.
    pub fn use_ty(&mut self, node: Node, ty: &Ty)
        requires
            old(self).well_formed(),
        ensures
            final(self)@ == old(self)@.use_ty(node, *ty),
            final(self).results() == old(self).results(),
            final(self).well_formed(),
        decreases ty,
    {
        let ghost before = self@;
        let ghost results = self.results();
        self.analysis.used.push((ty.perm, node));
        match ty.base.shallow_resolve_data() {
            Ok(data) => {
                let mut i: usize = 0;
                assert(before.used.push((ty.perm, node)) =~= before.used + (seq![(ty.perm, node)]
                    + uses_of_first(data.generics@, 0, node)));
                while i < data.generics.len()
                    invariant
                        i <= data.generics.len(),
                        ty.base == Base::Resolved(*data),
                        self@ == (AnalysisModel {
                            used: before.used + (seq![(ty.perm, node)] + uses_of_first(
                                data.generics@,
                                i as nat,
                                node,
                            )),
                            ..before
                        }),
                        self.results() == results,
                        self.well_formed(),
                    decreases data.generics.len() - i,
                {
                    let ghost so_far = seq![(ty.perm, node)] + uses_of_first(
                        data.generics@,
                        i as nat,
                        node,
                    );
                    proof {
                        // The argument lies inside `ty`: in its base, in the
                        // data of the base, in the list of generics.
                        assert(decreases_to!(ty => ty.base));
                        assert(decreases_to!(ty.base => ty.base->Resolved_0));
                        assert(decreases_to!(*data => data.generics));
                        assert(decreases_to!(data.generics => data.generics[i as int]));
                    }
                    self.use_ty(node, &data.generics[i]);
                    i += 1;
                    assert(before.used + so_far + data.generics@[i - 1].uses_at(node) =~= before.used
                        + (seq![(ty.perm, node)] + uses_of_first(data.generics@, i as nat, node)));
                }
            },
            Err(_) => {
                assert(before.used.push((ty.perm, node)) =~= before.used + ty.uses_at(node));
            },
        }
    }

    /// Records that the value of each expression of `list` is consumed at
    /// `node`, the first one first.
    pub fn use_results_of(&mut self, node: Node, list: &Vec<Expression>)
        requires
            old(self).well_formed(),
            forall|i: int|
                0 <= i < list@.len() ==> old(self).results().has_ty((#[trigger] list@[i]).id),
        ensures
            final(self)@ == old(self)@.use_results_of(
                old(self).results(),
                node,
                list@,
                list@.len(),
            ),
            final(self).results() == old(self).results(),
            final(self).well_formed(),
    {
        let ghost before = self@;
        let ghost results = self.results();
        let mut i: usize = 0;
        while i < list.len()
            invariant
                i <= list.len(),
                forall|j: int| 0 <= j < list@.len() ==> results.has_ty((#[trigger] list@[j]).id),
                self@ == before.use_results_of(results, node, list@, i as nat),
                self.results() == results,
                self.well_formed(),
            decreases list.len() - i,
        {
            self.use_result_of(node, list[i].id);
            i += 1;
        }
    }

    /// Records that the value of each initializer of `fields` is consumed
    /// at `node`, the first one first.
    pub fn use_results_of_fields(&mut self, node: Node, fields: &Vec<IdentifiedExpression>)
        requires
            old(self).well_formed(),
            forall|i: int|
                0 <= i < fields@.len() ==> old(self).results().has_ty(
                    (#[trigger] fields@[i]).expression.id,
                ),
        ensures
            final(self)@ == old(self)@.use_results_of_fields(
                old(self).results(),
                node,
                fields@,
                fields@.len(),
            ),
            final(self).results() == old(self).results(),
            final(self).well_formed(),
    {
        let ghost before = self@;
        let ghost results = self.results();
        let mut i: usize = 0;
        while i < fields.len()
            invariant
                i <= fields.len(),
                forall|j: int|
                    0 <= j < fields@.len() ==> results.has_ty(
                        (#[trigger] fields@[j]).expression.id,
                    ),
                self@ == before.use_results_of_fields(results, node, fields@, i as nat),
                self.results() == results,
                self.well_formed(),
            decreases fields.len() - i,
        {
            self.use_result_of(node, fields[i].expression.id);
            i += 1;
        }
    }

    /// Builds the control flow and the facts of `expression`, entered from
    /// `start_node`, and returns the node at which its evaluation has
    /// completed. The nodes and edges that it adds are those of the control
    /// flow of `expression`. What was in the analysis stays as it was, and
    /// no computed projection is added to its paths; and if the analysis
    /// was closed and `start_node` is one of its nodes, it is closed
    /// afterwards, and the node returned is one of its nodes.
    pub fn node(&mut self, start_node: Node, expression: &Expression) -> (node: Node)
        requires
            old(self).well_formed(),
            old(self).results().describes(*expression),
        ensures
            (final(self)@, node) == old(self)@.flow_expression(
                old(self).results(),
                start_node,
                *expression,
            ),
            final(self)@.node_datas == old(self)@.node_datas + expression.shape(
                start_node,
                old(self)@.node_datas.len(),
            ).nodes,
            final(self)@.cfg_edges == old(self)@.cfg_edges + expression.shape(
                start_node,
                old(self)@.node_datas.len(),
            ).edges,
            node == expression.shape(start_node, old(self)@.node_datas.len()).exit,
            final(self)@.extends(old(self)@),
            final(self)@.adds_no_index(old(self)@),
            old(self)@.closed() && old(self)@.has_node(start_node) ==> final(self)@.closed()
                && final(self)@.has_node(node),
            final(self).results() == old(self).results(),
            final(self).well_formed(),
    {
        proof {
            reveal(AnalysisModel::grows_by);
            self@.lemma_flow_expression_keeps(self.results(), start_node, *expression);
            self@.lemma_flow_expression_shape(self.results(), start_node, *expression);
        }
        let node = expression.to_cfg_node(start_node, self);
        proof {
            self.lemma_fits();
        }
        node
    }
}

} // verus!
