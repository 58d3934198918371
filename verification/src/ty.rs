//! Types as the flow analysis sees them: a permission on top of a base,
//! whose generic arguments are types again.
//!
//! A type is a snapshot of what inference knows when the analysis runs:
//! each base holds what one step of resolution gives for it, its head and
//! its generic arguments, or the variable that still stands in its place.

use vstd::prelude::*;
use crate::analysis::Node;
use crate::hir::Entity;

verus! {

/// The permission that a type carries. It is inferred elsewhere and only
/// recorded here.
#[derive(Clone, Copy, Debug, PartialEq, Eq, Structural, Hash)]
pub struct Perm(pub usize);

/// A type variable that inference has introduced.
#[derive(Clone, Copy, Debug, PartialEq, Eq, Structural, Hash)]
pub struct InferVar(pub usize);

/// The head of a base type.
#[derive(Clone, Copy, Debug, PartialEq, Eq, Structural, Hash)]
pub enum BaseKind {
    Named(Entity),
    Placeholder(usize),
    Error,
}

/// What a base type resolves to: its head and its generic arguments.
#[derive(Debug, PartialEq, Eq)]
pub struct BaseData {
    pub kind: BaseKind,
    pub generics: Vec<Ty>,
}

/// The base of a type, as unification has left it.
#[derive(Debug, PartialEq, Eq)]
pub enum Base {
    /// A variable that nothing constrains yet.
    Unresolved(InferVar),
    Resolved(BaseData),
}

/// A type: a permission and a base.
#[derive(Debug, PartialEq, Eq)]
pub struct Ty {
    pub perm: Perm,
    pub base: Base,
}

impl Ty {
    /// The uses that a value of this type makes of permissions when it flows
    /// through `node`: one for the type's own permission, then those of each
    /// generic argument in turn, as far as the bases are resolved.
    pub open spec fn uses_at(self, node: Node) -> Seq<(Perm, Node)>
        decreases self, 0nat,
    {
        seq![(self.perm, node)] + match self.base {
            Base::Unresolved(_) => Seq::empty(),
            Base::Resolved(data) => uses_of_first(data.generics@, data.generics@.len(), node),
        }
    }
}

/// The uses at `node` of the first `count` types of `tys`, one type after
/// the other.
pub open spec fn uses_of_first(tys: Seq<Ty>, count: nat, node: Node) -> Seq<(Perm, Node)>
    decreases tys, count,
{
    if count == 0 || count > tys.len() {
        Seq::empty()
    } else {
        uses_of_first(tys, (count - 1) as nat, node) + tys[count - 1].uses_at(node)
    }
}

impl Base {
    /// One step of resolution: the structure of the base if it is known,
    /// the variable that stands in its place if it is not.
    pub fn shallow_resolve_data(&self) -> (r: Result<&BaseData, InferVar>)
        ensures
            match *self {
                Base::Unresolved(var) => r == Err::<&BaseData, InferVar>(var),
                Base::Resolved(data) => r == Ok::<&BaseData, InferVar>(&data),
            },
    {
        match self {
            Base::Unresolved(var) => Err(*var),
            Base::Resolved(data) => Ok(data),
        }
    }
}

impl Ty {
    /// The type is nested to `depth`: below its own layer lie `depth`
    /// more, one inside the other, each the only generic argument of the
    /// one above it; the innermost has no generic argument, or its base is
    /// not resolved.
    pub open spec fn nested(self, depth: nat) -> bool
        decreases depth,
    {
        match self.base {
            Base::Unresolved(_) => depth == 0,
            Base::Resolved(data) => if data.generics@.len() == 0 {
                depth == 0
            } else {
                &&& depth > 0
                &&& data.generics@.len() == 1
                &&& data.generics@[0].nested((depth - 1) as nat)
            },
        }
    }

    /// A type nested to `depth` makes `depth + 1` uses: one for each layer,
    /// and none below a base that is not resolved.
    pub proof fn lemma_uses_of_nested(self, depth: nat, node: Node)
        requires
            self.nested(depth),
        ensures
            self.uses_at(node).len() == depth + 1,
        decreases depth,
    {
        match self.base {
            Base::Unresolved(_) => {},
            Base::Resolved(data) => {
                let generics = data.generics@;
                if generics.len() == 0 {
                } else {
                    generics[0].lemma_uses_of_nested((depth - 1) as nat, node);
                    assert(uses_of_first(generics, 0, node) =~= Seq::empty());
                    assert(uses_of_first(generics, 1, node) =~= generics[0].uses_at(node));
                }
            },
        }
    }
}

/// Every use that a type makes at a node is a use at that node.
pub proof fn lemma_uses_at_node(ty: Ty, node: Node)
    ensures
        forall|i: int| 0 <= i < ty.uses_at(node).len() ==> (#[trigger] ty.uses_at(node)[i]).1 == node,
    decreases ty, 0nat,
{
    let own = seq![(ty.perm, node)];
    let below = match ty.base {
        Base::Unresolved(_) => Seq::empty(),
        Base::Resolved(data) => uses_of_first(data.generics@, data.generics@.len(), node),
    };
    match ty.base {
        Base::Unresolved(_) => {},
        Base::Resolved(data) => {
            lemma_uses_of_first_at_node(data.generics@, data.generics@.len(), node);
        },
    }
    assert(ty.uses_at(node) == own + below);
    assert forall|i: int| 0 <= i < ty.uses_at(node).len() implies (#[trigger] ty.uses_at(
        node,
    )[i]).1 == node by {
        if i >= own.len() {
            assert((own + below)[i] == below[i - own.len()]);
        }
    }
}

pub(crate) proof fn lemma_uses_of_first_at_node(tys: Seq<Ty>, count: nat, node: Node)
    ensures
        forall|i: int|
            0 <= i < uses_of_first(tys, count, node).len() ==> (#[trigger] uses_of_first(
                tys,
                count,
                node,
            )[i]).1 == node,
    decreases tys, count,
{
    if count == 0 || count > tys.len() {
    } else {
        let earlier = uses_of_first(tys, (count - 1) as nat, node);
        let last = tys[count - 1].uses_at(node);
        lemma_uses_of_first_at_node(tys, (count - 1) as nat, node);
        lemma_uses_at_node(tys[count - 1], node);
        assert(uses_of_first(tys, count, node) == earlier + last);
        assert forall|i: int| 0 <= i < uses_of_first(tys, count, node).len() implies (
        #[trigger] uses_of_first(tys, count, node)[i]).1 == node by {
            if i >= earlier.len() {
                assert((earlier + last)[i] == last[i - earlier.len()]);
            }
        }
    }
}

} // verus!
