//! The executable node model: spans, node handles and the closed set of node
//! variants stored in an arena.
use vstd::prelude::*;
use crate::tree::Label;

verus! {

/// A half-open range of byte offsets into the program text.
#[derive(Clone, Copy, Debug, PartialEq, Eq)]
pub struct Span {
    pub start: u32,
    pub end: u32,
}

/// A stable handle to one slot of an [`crate::arena::Arena`].
#[derive(Clone, Copy, Debug, PartialEq, Eq, Hash)]
pub struct NodeId {
    pub index: usize,
}

/// The notation a numeric literal is displayed in.
#[derive(Clone, Copy, Debug, PartialEq, Eq)]
pub enum NumberBase {
    Float,
    Decimal,
    Binary,
    Octal,
    Hex,
}

/// The operator of a binary expression.
#[derive(Clone, Copy, Debug, PartialEq, Eq)]
pub enum BinaryOperator {
    Equality,
    Inequality,
    StrictEquality,
    StrictInequality,
    LessThan,
    LessEqualThan,
    GreaterThan,
    GreaterEqualThan,
    Addition,
    Subtraction,
    Multiplication,
    Division,
    Remainder,
    Exponential,
    ShiftLeft,
    ShiftRight,
    ShiftRightZeroFill,
    BitwiseOr,
    BitwiseXor,
    BitwiseAnd,
    In,
    Instanceof,
}

/// The tag of a [`Node`].
#[derive(Clone, Copy, Debug, PartialEq, Eq)]
pub enum NodeKind {
    Program,
    VariableDeclarator,
    Identifier,
    NumericLiteral,
    BinaryExpression,
    Other,
}

/// One tree node. Children are held by handle; the arena that stores the node
/// guarantees that every handle names a node owned by this node alone.
///
/// A numeric literal carries its value as the IEEE 754 binary64 bit pattern,
/// so that a captured value is copied without loss.
#[derive(Debug, PartialEq, Eq)]
pub enum Node {
    /// The root: an ordered sequence of top-level statements.
    Program { span: Span, body: Vec<NodeId> },
    /// A binding name with an optional initializer expression.
    VariableDeclarator { span: Span, name: String, init: Option<NodeId> },
    /// A read of a binding.
    Identifier { span: Span, name: String },
    /// A number and the base it is displayed in.
    NumericLiteral { span: Span, value: u64, base: NumberBase },
    /// An operator with its left and right operands.
    BinaryExpression { span: Span, operator: BinaryOperator, left: NodeId, right: NodeId },
    /// Any other construct; its children are kept in source order.
    Other { span: Span, children: Vec<NodeId> },
}

impl Node {
    /// What the node says about itself, apart from its children.
    pub open spec fn label(&self) -> Label {
        match *self {
            Node::Program { span, .. } => Label::Program { span },
            Node::VariableDeclarator { span, name, .. } => Label::VariableDeclarator {
                span,
                name: name@,
            },
            Node::Identifier { span, name } => Label::Identifier { span, name: name@ },
            Node::NumericLiteral { span, value, base } => Label::NumericLiteral {
                span,
                value,
                base,
            },
            Node::BinaryExpression { span, operator, .. } => Label::BinaryExpression {
                span,
                operator,
            },
            Node::Other { span, .. } => Label::Other { span },
        }
    }

    /// The handles of the node's children, in visiting order.
    pub open spec fn child_ids(&self) -> Seq<NodeId> {
        match *self {
            Node::Program { body, .. } => body@,
            Node::VariableDeclarator { init, .. } => match init {
                Some(c) => seq![c],
                None => Seq::empty(),
            },
            Node::Identifier { .. } => Seq::empty(),
            Node::NumericLiteral { .. } => Seq::empty(),
            Node::BinaryExpression { left, right, .. } => seq![left, right],
            Node::Other { children, .. } => children@,
        }
    }

    pub fn span(&self) -> (s: Span)
        ensures
            s == self.label().span(),
    {
        match self {
            Node::Program { span, .. } => *span,
            Node::VariableDeclarator { span, .. } => *span,
            Node::Identifier { span, .. } => *span,
            Node::NumericLiteral { span, .. } => *span,
            Node::BinaryExpression { span, .. } => *span,
            Node::Other { span, .. } => *span,
        }
    }

    pub fn kind(&self) -> (k: NodeKind)
        ensures
            k == self.label().kind(),
    {
        match self {
            Node::Program { .. } => NodeKind::Program,
            Node::VariableDeclarator { .. } => NodeKind::VariableDeclarator,
            Node::Identifier { .. } => NodeKind::Identifier,
            Node::NumericLiteral { .. } => NodeKind::NumericLiteral,
            Node::BinaryExpression { .. } => NodeKind::BinaryExpression,
            Node::Other { .. } => NodeKind::Other,
        }
    }

    /// The number of children.
    pub fn child_count(&self) -> (n: usize)
        ensures
            n == self.child_ids().len(),
    {
        match self {
            Node::Program { body, .. } => body.len(),
            Node::VariableDeclarator { init, .. } => match init {
                Some(_) => 1,
                None => 0,
            },
            Node::Identifier { .. } => 0,
            Node::NumericLiteral { .. } => 0,
            Node::BinaryExpression { .. } => 2,
            Node::Other { children, .. } => children.len(),
        }
    }

    /// Makes `id` the child at position `k`.
    pub(crate) fn set_child(&mut self, k: usize, id: NodeId)
        requires
            k < old(self).child_ids().len(),
        ensures
            final(self).label() == old(self).label(),
            final(self).child_ids() == old(self).child_ids().update(k as int, id),
    {
        match self {
            Node::Program { body, .. } => {
                body.set(k, id);
            },
            Node::VariableDeclarator { init, .. } => {
                *init = Some(id);
            },
            Node::BinaryExpression { left, right, .. } => {
                if k == 0 {
                    *left = id;
                } else {
                    *right = id;
                }
            },
            Node::Other { children, .. } => {
                children.set(k, id);
            },
            Node::Identifier { .. } => {},
            Node::NumericLiteral { .. } => {},
        }
        assert(self.child_ids() =~= old(self).child_ids().update(k as int, id));
    }

    /// The handle of child `k`, or `None` when the node has no such child.
    pub fn child(&self, k: usize) -> (c: Option<NodeId>)
        ensures
            c == (if k < self.child_ids().len() {
                Some(self.child_ids()[k as int])
            } else {
                None
            }),
    {
        match self {
            Node::Program { body, .. } => if k < body.len() {
                Some(body[k])
            } else {
                None
            },
            Node::VariableDeclarator { init, .. } => if k == 0 {
                *init
            } else {
                None
            },
            Node::Identifier { .. } => None,
            Node::NumericLiteral { .. } => None,
            Node::BinaryExpression { left, right, .. } => if k == 0 {
                Some(*left)
            } else if k == 1 {
                Some(*right)
            } else {
                None
            },
            Node::Other { children, .. } => if k < children.len() {
                Some(children[k])
            } else {
                None
            },
        }
    }
}

} // verus!
