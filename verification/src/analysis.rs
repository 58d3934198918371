//! What the analysis of one function body produces: the control-flow graph,
//! the table of paths, and the four relations of facts.
//!
//! Every store is append-only, and an identity is the position at which its
//! entry was appended. `AnalysisModel` is the mathematical reading of
//! `Analysis`; the operations of the stores are defined on it.

use vstd::prelude::*;
use crate::hir::{Entity, ExpressionId, GlobalIdentifier, Variable};
use crate::ty::{Perm, Ty};

verus! {

/// A point in the control flow, named by its position in the list of nodes.
#[derive(Clone, Copy, Debug, PartialEq, Eq, Structural, Hash)]
pub struct Node {
    pub index: usize,
}

/// Where a node comes from.
#[derive(Clone, Copy, Debug, PartialEq, Eq, Structural, Hash)]
pub enum NodeData {
    /// The evaluation of the expression has just completed here.
    Expression(ExpressionId),
    /// The branches of the expression, a conditional, meet again here.
    Join(ExpressionId),
}

/// A storage location, named by its position in the table of paths.
#[derive(Clone, Copy, Debug, PartialEq, Eq, Structural, Hash)]
pub struct Path {
    pub index: usize,
}

/// What a path stands for.
#[derive(Clone, Copy, Debug, PartialEq, Eq, Structural, Hash)]
pub enum PathData {
    Variable(Variable),
    Entity(Entity),
    /// The holder of the value of the expression.
    Temporary(ExpressionId),
    Field { owner: Path, name: GlobalIdentifier },
    /// A computed projection. No expression form leads to it yet.
    Index { owner: Path },
}

impl PathData {
    /// The path that this one is a projection of, if it is one.
    pub open spec fn spec_owner(self) -> Option<Path> {
        match self {
            PathData::Variable(_) => None,
            PathData::Entity(_) => None,
            PathData::Temporary(_) => None,
            PathData::Field { owner, name } => Some(owner),
            PathData::Index { owner } => Some(owner),
        }
    }

    /// The path that this one is a projection of, if it is one.
    #[verifier::when_used_as_spec(spec_owner)]
    pub fn owner(self) -> (r: Option<Path>)
        ensures
            r == self.spec_owner(),
    {
        match self {
            PathData::Variable(_) => None,
            PathData::Entity(_) => None,
            PathData::Temporary(_) => None,
            PathData::Field { owner, name: _ } => Some(owner),
            PathData::Index { owner } => Some(owner),
        }
    }

    /// A path is precise when an assignment to it determines all of it:
    /// when it is no projection of another path.
    pub open spec fn spec_precise(self) -> bool {
        self.spec_owner() is None
    }

    /// Whether an assignment to the path determines all of it.
    #[verifier::when_used_as_spec(spec_precise)]
    pub fn precise(self) -> (r: bool)
        ensures
            r == self.spec_precise(),
    {
        match self {
            PathData::Variable(_) => true,
            PathData::Entity(_) => true,
            PathData::Temporary(_) => true,
            PathData::Field { owner: _, name: _ } => false,
            PathData::Index { owner: _ } => false,
        }
    }

    /// The descriptor as three integers: the variant, then its fields.
    /// Distinct descriptors have distinct keys.
    pub open spec fn spec_key(self) -> (u8, usize, usize) {
        match self {
            PathData::Variable(v) => (0u8, v.0, 0usize),
            PathData::Entity(e) => (1u8, e.0, 0usize),
            PathData::Temporary(x) => (2u8, x.0, 0usize),
            PathData::Field { owner, name } => (3u8, owner.index, name.0),
            PathData::Index { owner } => (4u8, owner.index, 0usize),
        }
    }

    /// The descriptor as three integers: the variant, then its fields.
    #[verifier::when_used_as_spec(spec_key)]
    pub fn key(self) -> (r: (u8, usize, usize))
        ensures
            r == self.spec_key(),
    {
        match self {
            PathData::Variable(v) => (0u8, v.0, 0usize),
            PathData::Entity(e) => (1u8, e.0, 0usize),
            PathData::Temporary(x) => (2u8, x.0, 0usize),
            PathData::Field { owner, name } => (3u8, owner.index, name.0),
            PathData::Index { owner } => (4u8, owner.index, 0usize),
        }
    }

    /// Two descriptors with the same key are the same descriptor.
    pub proof fn lemma_key_injective(self, other: PathData)
        requires
            self.key() == other.key(),
        ensures
            self == other,
    {
    }
}

/// The result of analysing one function body.
#[derive(Debug, PartialEq, Eq)]
pub struct Analysis {
    /// The origin of each node.
    pub node_datas: Vec<NodeData>,
    /// `(from, to)`: control passes from `from` to `to`.
    pub cfg_edges: Vec<(Node, Node)>,
    /// The descriptor of each path.
    pub path_datas: Vec<PathData>,
    /// `(owner, path)`: `path` is a projection of `owner`.
    pub owner_paths: Vec<(Path, Path)>,
    /// `(perm, path, node)`: the expression at `node` reads `path`, which
    /// takes `perm`.
    pub accesses: Vec<(Perm, Path, Node)>,
    /// `(path, node)`: all of `path` is assigned at `node`.
    pub overwritten: Vec<(Path, Node)>,
    /// `(owner, node)`: the assignment at `node` goes through `owner` to
    /// reach a projection of it.
    pub traverse: Vec<(Path, Node)>,
    /// `(perm, node)`: a type that flows through `node` carries `perm`.
    pub used: Vec<(Perm, Node)>,
}

/// The mathematical reading of an `Analysis`.
pub struct AnalysisModel {
    pub node_datas: Seq<NodeData>,
    pub cfg_edges: Seq<(Node, Node)>,
    pub path_datas: Seq<PathData>,
    pub owner_paths: Seq<(Path, Path)>,
    pub accesses: Seq<(Perm, Path, Node)>,
    pub overwritten: Seq<(Path, Node)>,
    pub traverse: Seq<(Path, Node)>,
    pub used: Seq<(Perm, Node)>,
}

impl View for Analysis {
    type V = AnalysisModel;

    open spec fn view(&self) -> AnalysisModel {
        AnalysisModel {
            node_datas: self.node_datas@,
            cfg_edges: self.cfg_edges@,
            path_datas: self.path_datas@,
            owner_paths: self.owner_paths@,
            accesses: self.accesses@,
            overwritten: self.overwritten@,
            traverse: self.traverse@,
            used: self.used@,
        }
    }
}

impl Analysis {
    /// An analysis with no node, no path and no fact.
    pub fn new() -> (r: Analysis)
        ensures
            r@ == AnalysisModel::empty(),
    {
        Analysis {
            node_datas: Vec::new(),
            cfg_edges: Vec::new(),
            path_datas: Vec::new(),
            owner_paths: Vec::new(),
            accesses: Vec::new(),
            overwritten: Vec::new(),
            traverse: Vec::new(),
            used: Vec::new(),
        }
    }
}

/// The projections among `paths`, each with its owner, in the order of the
/// table.
pub open spec fn owner_relation(paths: Seq<PathData>) -> Seq<(Path, Path)>
    decreases paths.len(),
{
    if paths.len() == 0 {
        Seq::empty()
    } else {
        let earlier = owner_relation(paths.drop_last());
        match paths.last().spec_owner() {
            Some(owner) => earlier.push((owner, Path { index: (paths.len() - 1) as usize })),
            None => earlier,
        }
    }
}

impl AnalysisModel {
    /// The analysis with no node, no path and no fact.
    pub open spec fn empty() -> AnalysisModel {
        AnalysisModel {
            node_datas: Seq::empty(),
            cfg_edges: Seq::empty(),
            path_datas: Seq::empty(),
            owner_paths: Seq::empty(),
            accesses: Seq::empty(),
            overwritten: Seq::empty(),
            traverse: Seq::empty(),
            used: Seq::empty(),
        }
    }

    /// The identity that the next node will get.
    pub open spec fn next_node(self) -> Node {
        Node { index: self.node_datas.len() as usize }
    }

    /// The store with one more node, tagged `data`.
    pub open spec fn push_node(self, data: NodeData) -> AnalysisModel {
        AnalysisModel { node_datas: self.node_datas.push(data), ..self }
    }

    /// The store with one more edge.
    pub open spec fn push_edge(self, from: Node, to: Node) -> AnalysisModel {
        AnalysisModel { cfg_edges: self.cfg_edges.push((from, to)), ..self }
    }

    /// The store with one more node, entered from `start`.
    pub open spec fn push_node_edge(self, start: Node, data: NodeData) -> AnalysisModel {
        self.push_node(data).push_edge(start, self.next_node())
    }

    /// The identity of `data`: that of its entry in the table if it has one,
    /// else the one that the next entry will get.
    pub open spec fn path_of(self, data: PathData) -> Path {
        if self.path_datas.contains(data) {
            Path { index: self.path_datas.index_of(data) as usize }
        } else {
            Path { index: self.path_datas.len() as usize }
        }
    }

    /// The table after `data` was looked up in it: unchanged if `data` has
    /// an entry; else with `data` as its last entry, and with the pair of
    /// its owner and itself if it is a projection.
    pub open spec fn intern(self, data: PathData) -> AnalysisModel {
        if self.path_datas.contains(data) {
            self
        } else {
            AnalysisModel {
                path_datas: self.path_datas.push(data),
                owner_paths: match data.spec_owner() {
                    Some(owner) => self.owner_paths.push((owner, self.path_of(data))),
                    None => self.owner_paths,
                },
                ..self
            }
        }
    }

    /// The facts with one more access.
    pub open spec fn access(self, perm: Perm, path: Path, node: Node) -> AnalysisModel {
        AnalysisModel { accesses: self.accesses.push((perm, path, node)), ..self }
    }

    /// The facts after an assignment to `path` at `node`: the path is
    /// overwritten if it is precise, and its owner, if it has one, is
    /// traversed.
    pub open spec fn assign(self, path: Path, node: Node) -> AnalysisModel {
        let data = self.path_datas[path.index as int];
        AnalysisModel {
            overwritten: if data.spec_precise() {
                self.overwritten.push((path, node))
            } else {
                self.overwritten
            },
            traverse: match data.spec_owner() {
                Some(owner) => self.traverse.push((owner, node)),
                None => self.traverse,
            },
            ..self
        }
    }

    /// The facts after a value of type `ty` has flowed through `node`.
    pub open spec fn use_ty(self, node: Node, ty: Ty) -> AnalysisModel {
        AnalysisModel { used: self.used + ty.uses_at(node), ..self }
    }

    /// No descriptor has two entries, and the owner relation holds each
    /// projection of the table once.
    pub open spec fn canonical(self) -> bool {
        &&& self.path_datas.no_duplicates()
        &&& self.owner_paths == owner_relation(self.path_datas)
    }

    /// A descriptor that is looked up again gets the identity that it got
    /// the first time, and the second lookup changes nothing: its pair in
    /// the owner relation is not entered again.
    pub proof fn lemma_intern_again(self, data: PathData)
        requires
            self.canonical(),
        ensures
            self.intern(data).path_of(data) == self.path_of(data),
            self.intern(data).intern(data) == self.intern(data),
    {
        let after = self.intern(data);
        if self.path_datas.contains(data) {
        } else {
            assert(after.path_datas[self.path_datas.len() as int] == data);
            assert(after.path_datas.contains(data));
            let found = after.path_datas.index_of(data);
            if found < self.path_datas.len() {
                assert(self.path_datas[found] == data);
            }
        }
    }

    /// The identity of a descriptor does not change when another one is
    /// looked up after it.
    pub proof fn lemma_intern_stable(self, first: PathData, second: PathData)
        requires
            self.canonical(),
        ensures
            self.intern(first).intern(second).path_of(first) == self.path_of(first),
    {
        self.lemma_intern_again(first);
        let once = self.intern(first);
        self.lemma_intern_canonical(first);
        assert(once.path_datas.contains(first)) by {
            if !self.path_datas.contains(first) {
                assert(once.path_datas[self.path_datas.len() as int] == first);
            }
        }
        let position = once.path_datas.index_of(first);
        let twice = once.intern(second);
        once.lemma_intern_canonical(second);
        assert(twice.path_datas[position] == first);
        assert(twice.path_datas.contains(first));
    }

    /// Two descriptors that differ get two identities.
    pub proof fn lemma_intern_distinct(self, first: PathData, second: PathData)
        requires
            self.canonical(),
            first != second,
            self.intern(first).intern(second).path_datas.len() <= usize::MAX,
        ensures
            self.path_of(first) != self.intern(first).path_of(second),
    {
        let once = self.intern(first);
        if !self.path_datas.contains(first) {
            assert(once.path_datas[self.path_datas.len() as int] == first);
        }
        if once.path_datas.contains(second) {
            let found = once.path_datas.index_of(second);
            assert(once.path_datas[found] == second);
        }
    }

    /// Looking a descriptor up keeps the table canonical.
    pub proof fn lemma_intern_canonical(self, data: PathData)
        requires
            self.canonical(),
        ensures
            self.intern(data).canonical(),
    {
        if !self.path_datas.contains(data) {
            assert(self.path_datas.push(data).drop_last() =~= self.path_datas);
        }
    }

    /// In a canonical table the owner relation holds, for each projection,
    /// the pair of its owner and itself, once, and nothing else.
    pub proof fn lemma_owner_relation_once(self)
        requires
            self.canonical(),
            self.path_datas.len() <= usize::MAX,
        ensures
            forall|k: int|
                0 <= k < self.owner_paths.len() ==> {
                    &&& (#[trigger] self.owner_paths[k]).1.index < self.path_datas.len()
                    &&& self.path_datas[self.owner_paths[k].1.index as int].spec_owner() == Some(
                        self.owner_paths[k].0,
                    )
                },
            forall|k: int, l: int|
                0 <= k < l < self.owner_paths.len() ==> (#[trigger] self.owner_paths[k]).1.index < (
                #[trigger] self.owner_paths[l]).1.index,
            forall|i: int|
                0 <= i < self.path_datas.len() ==> (
                (#[trigger] self.path_datas[i]).spec_owner() matches Some(owner)
                    ==> self.owner_paths.contains((owner, Path { index: i as usize }))),
    {
        lemma_owner_relation(self.path_datas);
    }
}

/// The owner relation of a table: its pairs are those of the projections,
/// in the order of the table.
pub(crate) proof fn lemma_owner_relation(paths: Seq<PathData>)
    requires
        paths.len() <= usize::MAX,
    ensures
        forall|k: int|
            0 <= k < owner_relation(paths).len() ==> {
                &&& (#[trigger] owner_relation(paths)[k]).1.index < paths.len()
                &&& paths[owner_relation(paths)[k].1.index as int].spec_owner() == Some(
                    owner_relation(paths)[k].0,
                )
            },
        forall|k: int, l: int|
            0 <= k < l < owner_relation(paths).len() ==> (#[trigger] owner_relation(
                paths,
            )[k]).1.index < (#[trigger] owner_relation(paths)[l]).1.index,
        forall|i: int|
            0 <= i < paths.len() ==> ((#[trigger] paths[i]).spec_owner() matches Some(owner)
                ==> owner_relation(paths).contains((owner, Path { index: i as usize }))),
    decreases paths.len(),
{
    if paths.len() > 0 {
        let shorter = paths.drop_last();
        lemma_owner_relation(shorter);
        let earlier = owner_relation(shorter);
        let all = owner_relation(paths);
        let last = (paths.len() - 1) as int;
        assert forall|i: int| 0 <= i < paths.len() implies ((#[trigger] paths[i]).spec_owner()
            matches Some(owner) ==> all.contains((owner, Path { index: i as usize }))) by {
            if let Some(owner) = paths[i].spec_owner() {
                if i < last {
                    assert(shorter[i] == paths[i]);
                    let k = earlier.index_of((owner, Path { index: i as usize }));
                    assert(all[k] == (owner, Path { index: i as usize }));
                } else {
                    assert(all[all.len() - 1] == (owner, Path { index: i as usize }));
                }
            }
        }
        assert forall|k: int| 0 <= k < all.len() implies {
            &&& (#[trigger] all[k]).1.index < paths.len()
            &&& paths[all[k].1.index as int].spec_owner() == Some(all[k].0)
        } by {
            if k < earlier.len() {
                assert(all[k] == earlier[k]);
                assert(shorter[earlier[k].1.index as int] == paths[earlier[k].1.index as int]);
            }
        }
        assert forall|k: int, l: int| 0 <= k < l < all.len() implies (#[trigger] all[k]).1.index < (
        #[trigger] all[l]).1.index by {
            assert(all[k] == earlier[k]);
            if l < earlier.len() {
                assert(all[l] == earlier[l]);
            }
        }
    }
}

} // verus!
