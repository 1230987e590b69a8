//! Source-to-source constant substitution over an arena-allocated syntax tree.
//!
//! A run owns one [`arena::Arena`]. The tree lives in it, a pass implementing
//! [`visit::Visitor`] is driven over it by [`visit::walk`], and
//! [`substitute::SubstitutionPass`] is the pass that captures a named numeric
//! constant and rewrites reads of it into literals. Contracts speak of a
//! subtree through its view, a [`tree::Tree`].
//!
//! [`docs`] is apart from all that: it lays out the rendered command-line
//! reference of the linter as a page.
pub mod node;
pub mod tree;
pub mod arena;
pub mod visit;
pub mod substitute;
pub mod docs;
