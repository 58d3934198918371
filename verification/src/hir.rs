//! The body of one function as a tree of expressions over places.
//!
//! The tree is read, never changed: every walk over it takes a shared
//! reference. An expression carries the identity under which its type and
//! its access permission were recorded, and under which its control-flow
//! nodes are tagged.

use vstd::prelude::*;

verus! {

/// The identity of one expression of a function body.
#[derive(Clone, Copy, Debug, PartialEq, Eq, Structural, Hash)]
pub struct ExpressionId(pub usize);

/// A local binding.
#[derive(Clone, Copy, Debug, PartialEq, Eq, Structural, Hash)]
pub struct Variable(pub usize);

/// A named declaration that lives outside the function body.
#[derive(Clone, Copy, Debug, PartialEq, Eq, Structural, Hash)]
pub struct Entity(pub usize);

/// An interned piece of text.
#[derive(Clone, Copy, Debug, PartialEq, Eq, Structural, Hash)]
pub struct GlobalIdentifier(pub usize);

/// An occurrence of a name in the source, such as the label of a field.
#[derive(Clone, Copy, Debug, PartialEq, Eq, Structural, Hash)]
pub struct Identifier {
    pub text: GlobalIdentifier,
}

/// The operator of an expression with two operands.
#[derive(Clone, Copy, Debug, PartialEq, Eq, Structural, Hash)]
pub enum BinaryOperator {
    Add,
    Subtract,
    Multiply,
    Divide,
    Equals,
    NotEquals,
}

/// The operator of an expression with one operand.
#[derive(Clone, Copy, Debug, PartialEq, Eq, Structural, Hash)]
pub enum UnaryOperator {
    Not,
}

/// What a literal is a literal of.
#[derive(Clone, Copy, Debug, PartialEq, Eq, Structural, Hash)]
pub enum LiteralKind {
    UnsignedInteger,
    String,
    Bool,
}

/// A literal: its kind and its text.
#[derive(Clone, Copy, Debug, PartialEq, Eq, Structural, Hash)]
pub struct LiteralData {
    pub kind: LiteralKind,
    pub value: GlobalIdentifier,
}

/// An expression that denotes a storage location.
#[derive(Debug, PartialEq, Eq)]
pub enum Place {
    Variable(Variable),
    Entity(Entity),
    /// The anonymous holder of the value of an expression.
    Temporary(Box<Expression>),
    /// The field `name` of the location `owner`.
    Field { owner: Box<Place>, name: Identifier },
}

/// One expression: its identity and its form.
#[derive(Debug, PartialEq, Eq)]
pub struct Expression {
    pub id: ExpressionId,
    pub data: ExpressionData,
}

/// A field initializer of an aggregate: the label and the value.
#[derive(Debug, PartialEq, Eq)]
pub struct IdentifiedExpression {
    pub identifier: Identifier,
    pub expression: Expression,
}

/// The forms an expression can take.
#[derive(Debug, PartialEq, Eq)]
#[allow(inconsistent_fields)]
pub enum ExpressionData {
    /// `let variable = initializer; body`
    Let { variable: Variable, initializer: Option<Box<Expression>>, body: Box<Expression> },
    /// A read of a place.
    Place { place: Place },
    /// `place = value`
    Assignment { place: Place, value: Box<Expression> },
    /// `arguments[0].method(arguments[1..])`
    MethodCall { method: Identifier, arguments: Vec<Expression> },
    /// `function(arguments)`
    Call { function: Box<Expression>, arguments: Vec<Expression> },
    /// `if condition { if_true } else { if_false }`
    If { condition: Box<Expression>, if_true: Box<Expression>, if_false: Box<Expression> },
    Binary { operator: BinaryOperator, left: Box<Expression>, right: Box<Expression> },
    Unary { operator: UnaryOperator, value: Box<Expression> },
    Literal { data: LiteralData },
    Unit,
    /// `entity { fields }`
    Aggregate { entity: Entity, fields: Vec<IdentifiedExpression> },
    /// `first; second`
    Sequence { first: Box<Expression>, second: Box<Expression> },
    /// An expression that the earlier passes could not make sense of.
    Error,
}

} // verus!
