//! What type checking has recorded of each expression of a function body:
//! its type, and for a read of a place the permission that the read takes.

use vstd::prelude::*;
use std::collections::HashMap;
use crate::hir::{Expression, ExpressionData, ExpressionId, IdentifiedExpression, Place};
use crate::ty::{Perm, Ty};

verus! {

broadcast use vstd::std_specs::hash::group_hash_axioms;

/// The two lookup tables, each keyed by the number of an expression's
/// identity.
#[derive(Debug)]
pub struct TypeCheckResults {
    pub types: HashMap<usize, Ty>,
    pub access_permissions: HashMap<usize, Perm>,
}

impl TypeCheckResults {
    /// Tables with no entry.
    pub fn new() -> (r: TypeCheckResults)
        ensures
            r.types@ == Map::<usize, Ty>::empty(),
            r.access_permissions@ == Map::<usize, Perm>::empty(),
    {
        TypeCheckResults { types: HashMap::new(), access_permissions: HashMap::new() }
    }

    /// Records `ty` as the type of `expression`, in place of an earlier one.
    pub fn record_ty(&mut self, expression: ExpressionId, ty: Ty)
        ensures
            final(self).types@ == old(self).types@.insert(expression.0, ty),
            final(self).access_permissions@ == old(self).access_permissions@,
    {
        self.types.insert(expression.0, ty);
    }

    /// Records `perm` as the permission that the read `expression` takes,
    /// in place of an earlier one.
    pub fn record_access_permission(&mut self, expression: ExpressionId, perm: Perm)
        ensures
            final(self).access_permissions@ == old(self).access_permissions@.insert(
                expression.0,
                perm,
            ),
            final(self).types@ == old(self).types@,
    {
        self.access_permissions.insert(expression.0, perm);
    }

    /// A type is recorded for `expression`.
    pub open spec fn spec_has_ty(&self, expression: ExpressionId) -> bool {
        self.types@.contains_key(expression.0)
    }

    /// Whether a type is recorded for `expression`.
    #[verifier::when_used_as_spec(spec_has_ty)]
    pub fn has_ty(&self, expression: ExpressionId) -> (r: bool)
        ensures
            r == self.spec_has_ty(expression),
    {
        self.types.contains_key(&expression.0)
    }

    /// The type that is recorded for `expression`.
    pub open spec fn spec_ty(&self, expression: ExpressionId) -> Ty {
        self.types@[expression.0]
    }

    /// The type of `expression`.
    pub fn ty(&self, expression: ExpressionId) -> (r: &Ty)
        requires
            self.has_ty(expression),
        ensures
            *r == self.spec_ty(expression),
    {
        let found = self.types.get(&expression.0);
        found.unwrap()
    }

    /// A permission is recorded for the read `expression`.
    pub open spec fn spec_has_access_permission(&self, expression: ExpressionId) -> bool {
        self.access_permissions@.contains_key(expression.0)
    }

    /// Whether a permission is recorded for the read `expression`.
    #[verifier::when_used_as_spec(spec_has_access_permission)]
    pub fn has_access_permission(&self, expression: ExpressionId) -> (r: bool)
        ensures
            r == self.spec_has_access_permission(expression),
    {
        self.access_permissions.contains_key(&expression.0)
    }

    /// The permission that is recorded for the read `expression`.
    pub open spec fn spec_access_permission(&self, expression: ExpressionId) -> Perm {
        self.access_permissions@[expression.0]
    }

    /// The permission that the read `expression` takes.
    pub fn access_permission(&self, expression: ExpressionId) -> (r: Perm)
        requires
            self.has_access_permission(expression),
        ensures
            r == self.spec_access_permission(expression),
    {
        let found = self.access_permissions.get(&expression.0);
        *found.unwrap()
    }

    /// Every lookup that the traversal of `expression` makes has an entry:
    /// the type of each expression whose value another one consumes, and the
    /// permission of each read of a place.
    pub open spec fn describes(&self, expression: Expression) -> bool
        decreases expression,
    {
        match expression.data {
            ExpressionData::Let { variable, initializer, body } => {
                &&& initializer matches Some(i) ==> self.has_ty(i.id) && self.describes(*i)
                &&& self.describes(*body)
            },
            ExpressionData::Place { place } => {
                &&& self.describes_place(place)
                &&& self.has_access_permission(expression.id)
            },
            ExpressionData::Assignment { place, value } => {
                &&& self.describes_place(place)
                &&& self.describes(*value)
            },
            ExpressionData::MethodCall { method, arguments } => {
                forall|i: int|
                    0 <= i < arguments@.len() ==> self.has_ty((#[trigger] arguments@[i]).id)
                        && self.describes(arguments@[i])
            },
            ExpressionData::Call { function, arguments } => {
                &&& self.describes(*function)
                &&& forall|i: int|
                    0 <= i < arguments@.len() ==> self.has_ty((#[trigger] arguments@[i]).id)
                        && self.describes(arguments@[i])
            },
            ExpressionData::If { condition, if_true, if_false } => {
                &&& self.has_ty(condition.id)
                &&& self.describes(*condition)
                &&& self.describes(*if_true)
                &&& self.describes(*if_false)
            },
            ExpressionData::Binary { operator, left, right } => {
                &&& self.has_ty(left.id)
                &&& self.has_ty(right.id)
                &&& self.describes(*left)
                &&& self.describes(*right)
            },
            ExpressionData::Unary { operator, value } => {
                &&& self.has_ty(value.id)
                &&& self.describes(*value)
            },
            ExpressionData::Literal { data } => true,
            ExpressionData::Unit => true,
            ExpressionData::Aggregate { entity, fields } => {
                forall|i: int|
                    0 <= i < fields@.len() ==> self.has_ty(
                        (#[trigger] fields@[i]).expression.id,
                    ) && self.describes(fields@[i].expression)
            },
            ExpressionData::Sequence { first, second } => {
                &&& self.describes(*first)
                &&& self.describes(*second)
            },
            ExpressionData::Error => true,
        }
    }

    /// Every lookup that the traversal of `place` makes has an entry.
    pub open spec fn describes_place(&self, place: Place) -> bool
        decreases place,
    {
        match place {
            Place::Variable(_) => true,
            Place::Entity(_) => true,
            Place::Temporary(expression) => self.describes(*expression),
            Place::Field { owner, name } => self.describes_place(*owner),
        }
    }

    /// Whether every lookup that the traversal of `expression` makes has
    /// an entry.
    pub fn covers(&self, expression: &Expression) -> (r: bool)
        ensures
            r == self.describes(*expression),
        decreases expression,
    {
        match &expression.data {
            ExpressionData::Let { variable: _, initializer, body } => {
                let initialized = match initializer {
                    Some(value) => self.has_ty(value.id) && self.covers(value),
                    None => true,
                };
                initialized && self.covers(body)
            },
            ExpressionData::Place { place } => self.covers_place(place)
                && self.has_access_permission(expression.id),
            ExpressionData::Assignment { place, value } => self.covers_place(place)
                && self.covers(value),
            ExpressionData::MethodCall { method: _, arguments } => self.covers_all(arguments),
            ExpressionData::Call { function, arguments } => self.covers(function)
                && self.covers_all(arguments),
            ExpressionData::If { condition, if_true, if_false } => self.has_ty(condition.id)
                && self.covers(condition) && self.covers(if_true) && self.covers(if_false),
            ExpressionData::Binary { operator: _, left, right } => self.has_ty(left.id)
                && self.has_ty(right.id) && self.covers(left) && self.covers(right),
            ExpressionData::Unary { operator: _, value } => self.has_ty(value.id) && self.covers(
                value,
            ),
            ExpressionData::Literal { data: _ } => true,
            ExpressionData::Unit => true,
            ExpressionData::Aggregate { entity: _, fields } => self.covers_fields(fields),
            ExpressionData::Sequence { first, second } => self.covers(first) && self.covers(
                second,
            ),
            ExpressionData::Error => true,
        }
    }

    /// Whether every lookup that the traversal of `place` makes has an
    /// entry.
    pub fn covers_place(&self, place: &Place) -> (r: bool)
        ensures
            r == self.describes_place(*place),
        decreases place,
    {
        match place {
            Place::Variable(_) => true,
            Place::Entity(_) => true,
            Place::Temporary(expression) => self.covers(expression),
            Place::Field { owner, name: _ } => self.covers_place(owner),
        }
    }

    /// Whether each expression of `list` has a type and all its lookups
    /// have entries.
    pub fn covers_all(&self, list: &Vec<Expression>) -> (r: bool)
        ensures
            r == (forall|i: int|
                0 <= i < list@.len() ==> self.has_ty((#[trigger] list@[i]).id) && self.describes(
                    list@[i],
                )),
        decreases list,
    {
        let mut i: usize = 0;
        while i < list.len()
            invariant
                i <= list.len(),
                forall|j: int|
                    0 <= j < i ==> self.has_ty((#[trigger] list@[j]).id) && self.describes(
                        list@[j],
                    ),
            decreases list.len() - i,
        {
            if !(self.has_ty(list[i].id) && self.covers(&list[i])) {
                return false;
            }
            i += 1;
        }
        true
    }

    /// Whether each initializer of `fields` has a type and all its lookups
    /// have entries.
    pub fn covers_fields(&self, fields: &Vec<IdentifiedExpression>) -> (r: bool)
        ensures
            r == (forall|i: int|
                0 <= i < fields@.len() ==> self.has_ty((#[trigger] fields@[i]).expression.id)
                    && self.describes(fields@[i].expression)),
        decreases fields,
    {
        let mut i: usize = 0;
        while i < fields.len()
            invariant
                i <= fields.len(),
                forall|j: int|
                    0 <= j < i ==> self.has_ty((#[trigger] fields@[j]).expression.id)
                        && self.describes(fields@[j].expression),
            decreases fields.len() - i,
        {
            if !(self.has_ty(fields[i].expression.id) && self.covers(&fields[i].expression)) {
                return false;
            }
            i += 1;
        }
        true
    }
}

} // verus!
