//! The mathematical model of a syntax tree: a label and a sequence of subtrees.
use vstd::prelude::*;
use crate::node::{BinaryOperator, NodeKind, NumberBase, Span};

verus! {

/// What a node says about itself, apart from its children.
pub enum Label {
    Program { span: Span },
    VariableDeclarator { span: Span, name: Seq<char> },
    Identifier { span: Span, name: Seq<char> },
    NumericLiteral { span: Span, value: u64, base: NumberBase },
    BinaryExpression { span: Span, operator: BinaryOperator },
    Other { span: Span },
}

impl Label {
    pub open spec fn span(self) -> Span {
        match self {
            Label::Program { span } => span,
            Label::VariableDeclarator { span, .. } => span,
            Label::Identifier { span, .. } => span,
            Label::NumericLiteral { span, .. } => span,
            Label::BinaryExpression { span, .. } => span,
            Label::Other { span } => span,
        }
    }

    pub open spec fn kind(self) -> NodeKind {
        match self {
            Label::Program { .. } => NodeKind::Program,
            Label::VariableDeclarator { .. } => NodeKind::VariableDeclarator,
            Label::Identifier { .. } => NodeKind::Identifier,
            Label::NumericLiteral { .. } => NodeKind::NumericLiteral,
            Label::BinaryExpression { .. } => NodeKind::BinaryExpression,
            Label::Other { .. } => NodeKind::Other,
        }
    }
}

/// A tree as a value: the view of the subtree below one arena slot.
///
/// A declarator has its initializer as its only child, if it has one; a binary
/// expression has its left operand and then its right operand.
pub struct Tree {
    pub label: Label,
    pub children: Seq<Tree>,
}

impl Tree {
    /// The spans are laid out as in a parsed program: every span is a range,
    /// the span of a child lies inside the span of its parent, and the spans
    /// of the children of one node follow each other without overlap.
    pub open spec fn spans_nested(self) -> bool
        decreases self,
    {
        &&& self.label.span().start <= self.label.span().end
        &&& forall|k: int|
            0 <= k < self.children.len() ==> {
                &&& self.label.span().start <= (#[trigger] self.children[k]).label.span().start
                &&& self.children[k].label.span().end <= self.label.span().end
                &&& self.children[k].spans_nested()
            }
        &&& forall|k1: int, k2: int|
            0 <= k1 < k2 < self.children.len() ==> (#[trigger] self.children[k1]).label.span().end
                <= (#[trigger] self.children[k2]).label.span().start
    }

    /// A tree without children.
    pub open spec fn leaf(label: Label) -> Tree {
        Tree { label, children: Seq::empty() }
    }

    /// The literal that takes the place of `replaced`: it carries the span of
    /// the node it replaces.
    pub open spec fn literal_in_place_of(replaced: Tree, value: u64, base: NumberBase) -> Tree {
        Tree::leaf(Label::NumericLiteral { span: replaced.label.span(), value, base })
    }
}

} // verus!
