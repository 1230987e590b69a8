//! The substitution pass: it captures the numeric value that a declaration
//! gives to one named constant and puts that value in the place of the reads
//! of the constant that the walk meets in expression position.
use vstd::prelude::*;
use crate::arena::Arena;
use crate::node::{Node, NodeId, NumberBase};
use crate::tree::{Label, Tree};
use crate::visit::{
    lemma_children_progress, walk, walk_child_spec, walk_children_spec, walk_expression_spec,
    walk_spec, Flow, Outcome, PassError, Progress, Rewrite, Visitor,
};

verus! {

/// The state of one substitution pass: the name it looks for and the value
/// captured for it so far.
#[derive(Debug, PartialEq, Eq)]
pub struct SubstitutionPass {
    pub target: String,
    pub captured: Option<u64>,
}

impl SubstitutionPass {
    /// The value that `declarator` gives to the target, if it is a declarator
    /// of the target whose initializer is a numeric literal.
    pub open spec fn bound_value(self, declarator: Tree) -> Option<u64> {
        match declarator.label {
            Label::VariableDeclarator { name, .. } => if name == self.target@
                && declarator.children.len() == 1 {
                match declarator.children[0].label {
                    Label::NumericLiteral { value, .. } => Some(value),
                    _ => None,
                }
            } else {
                None
            },
            _ => None,
        }
    }

    /// The pass after it has seen `declarator`: a value bound there takes the
    /// place of whatever was captured before. Of several declarators that bind
    /// the target, the last one visited wins; none of them is an error.
    pub open spec fn after_declarator(self, declarator: Tree) -> SubstitutionPass {
        match self.bound_value(declarator) {
            Some(value) => SubstitutionPass { target: self.target, captured: Some(value) },
            None => self,
        }
    }

    /// `tree` is an identifier that reads the target.
    pub open spec fn reads_target(self, tree: Tree) -> bool {
        tree.label matches Label::Identifier { name, .. } && name == self.target@
    }

    /// A pass for the constant named `target`, with nothing captured yet.
    pub fn new(target: String) -> (pass: SubstitutionPass)
        ensures
            pass.target == target,
            pass.captured is None,
    {
        SubstitutionPass { target, captured: None }
    }

    /// Runs the pass over the tree below `program`.
    ///
    /// Declarators are looked at and not entered. A read of the target in
    /// expression position becomes a decimal literal of the captured value
    /// with the read's span; if nothing is captured by then, the pass fails
    /// with `UnboundConstant`. Children of `Other` nodes are not in expression
    /// position, so a read that is such a child stays.
    pub fn run(&mut self, arena: &mut Arena, program: NodeId) -> (r: Result<(), PassError>)
        requires
            old(arena).wf(),
            old(arena).contains(program),
        ensures
            final(arena).wf(),
            final(arena).extends(old(arena)),
            final(arena).differs_within(old(arena), program),
            final(arena).tree(program) == walk_spec(*old(self), old(arena).tree(program)).tree,
            *final(self) == walk_spec(*old(self), old(arena).tree(program)).visitor,
            r == walk_spec(*old(self), old(arena).tree(program)).result(),
            final(arena).spec_len() == old(arena).spec_len() + walk_spec(
                *old(self),
                old(arena).tree(program),
            ).replaced,
            final(self).target == old(self).target,
            old(self).captured is Some ==> r is Ok && final(self).captured is Some,
            r is Err ==> {
                &&& r == Err::<(), PassError>(PassError::UnboundConstant)
                &&& final(arena).tree(program) == old(arena).tree(program)
                &&& final(arena).spec_len() == old(arena).spec_len()
                &&& final(self).captured is None
            },
    {
        proof {
            lemma_walk_steady(*self, arena.tree(program));
        }
        walk(self, arena, program)
    }
}

impl Visitor for SubstitutionPass {
    /// The declarator entry point is overridden: it captures and does not
    /// descend. Every other kind keeps the default recursion.
    open spec fn enter_spec(self, subtree: Tree) -> (Result<Flow, PassError>, Self) {
        match subtree.label {
            Label::VariableDeclarator { .. } => (Ok(Flow::Skip), self.after_declarator(subtree)),
            _ => (Ok(Flow::Descend), self),
        }
    }

    /// The expression entry point is overridden for reads of the target.
    open spec fn expression_spec(self, subtree: Tree) -> (Result<Rewrite, PassError>, Self) {
        if self.reads_target(subtree) {
            match self.captured {
                Some(value) => (Ok(Rewrite::Replace { value, base: NumberBase::Decimal }), self),
                None => (Err(PassError::UnboundConstant), self),
            }
        } else {
            (Ok(Rewrite::Dispatch), self)
        }
    }

    fn visit_program(&mut self, arena: &Arena, id: NodeId) -> (r: Result<Flow, PassError>) {
        proof {
            arena.lemma_tree_unfold(id);
        }
        Ok(Flow::Descend)
    }

    /// Captures the value of a declarator that binds a numeric literal to the
    /// target, and does not descend.
    fn visit_variable_declarator(&mut self, arena: &Arena, id: NodeId) -> (r: Result<
        Flow,
        PassError,
    >) {
        proof {
            arena.lemma_tree_unfold(id);
        }
        match arena.get(id) {
            Some(Node::VariableDeclarator { name, init, .. }) => {
                if *name == self.target {
                    match init {
                        Some(init_id) => {
                            proof {
                                assert(arena.node(id).child_ids()[0] == *init_id);
                                arena.lemma_tree_unfold(*init_id);
                            }
                            match arena.get(*init_id) {
                                Some(Node::NumericLiteral { value, .. }) => {
                                    self.captured = Some(*value);
                                },
                                _ => {},
                            }
                        },
                        None => {},
                    }
                }
            },
            _ => {},
        }
        Ok(Flow::Skip)
    }

    fn visit_identifier(&mut self, arena: &Arena, id: NodeId) -> (r: Result<Flow, PassError>) {
        proof {
            arena.lemma_tree_unfold(id);
        }
        Ok(Flow::Descend)
    }

    fn visit_numeric_literal(&mut self, arena: &Arena, id: NodeId) -> (r: Result<Flow, PassError>) {
        proof {
            arena.lemma_tree_unfold(id);
        }
        Ok(Flow::Descend)
    }

    fn visit_binary_expression(&mut self, arena: &Arena, id: NodeId) -> (r: Result<
        Flow,
        PassError,
    >) {
        proof {
            arena.lemma_tree_unfold(id);
        }
        Ok(Flow::Descend)
    }

    fn visit_other(&mut self, arena: &Arena, id: NodeId) -> (r: Result<Flow, PassError>) {
        proof {
            arena.lemma_tree_unfold(id);
        }
        Ok(Flow::Descend)
    }

    /// Decides the one substitution rule: a read of the target gives way to
    /// the captured value, or fails the pass where nothing is captured.
    fn visit_expression(&mut self, arena: &Arena, id: NodeId) -> (r: Result<Rewrite, PassError>) {
        proof {
            arena.lemma_tree_unfold(id);
        }
        match arena.get(id) {
            Some(Node::Identifier { name, .. }) => {
                if *name == self.target {
                    match self.captured {
                        Some(value) => Ok(Rewrite::Replace { value, base: NumberBase::Decimal }),
                        None => Err(PassError::UnboundConstant),
                    }
                } else {
                    Ok(Rewrite::Dispatch)
                }
            },
            _ => Ok(Rewrite::Dispatch),
        }
    }
}

/// What every walk of the pass keeps: the target stays, a captured value is
/// never lost, and a walk that starts with a captured value cannot fail.
pub open spec fn steady(
    before: SubstitutionPass,
    after: SubstitutionPass,
    error: Option<PassError>,
) -> bool {
    &&& after.target == before.target
    &&& before.captured is Some ==> after.captured is Some && error is None
    &&& error is Some ==> after.captured is None
}

/// The pass after the declarators `declarators[from..]`, seen in order.
pub open spec fn after_declarators(
    pass: SubstitutionPass,
    declarators: Seq<Tree>,
    from: int,
) -> SubstitutionPass
    decreases declarators.len() - from,
{
    if 0 <= from < declarators.len() {
        after_declarators(pass.after_declarator(declarators[from]), declarators, from + 1)
    } else {
        pass
    }
}

/// A declarator is looked at and left as it is; the pass never fails on it.
/// A value it binds to the target replaces what was captured before, and a
/// declarator that binds no numeric literal to the target captures nothing.
pub proof fn lemma_declarator(pass: SubstitutionPass, declarator: Tree)
    requires
        declarator.label is VariableDeclarator,
    ensures
        walk_spec(pass, declarator) == (Outcome {
            tree: declarator,
            visitor: pass.after_declarator(declarator),
            error: None,
            replaced: 0,
        }),
        walk_expression_spec(pass, declarator) == walk_spec(pass, declarator),
        pass.bound_value(declarator) is Some ==> pass.after_declarator(declarator).captured
            == pass.bound_value(declarator),
        pass.bound_value(declarator) is None ==> pass.after_declarator(declarator) == pass,
{
}

/// A read of the target in expression position, met after a value was
/// captured, gives way to a decimal literal of that value with the read's span.
pub proof fn lemma_bound_read(pass: SubstitutionPass, read: Tree, value: u64)
    requires
        pass.reads_target(read),
        pass.captured == Some(value),
    ensures
        walk_expression_spec(pass, read) == (Outcome {
            tree: Tree::leaf(
                Label::NumericLiteral {
                    span: read.label.span(),
                    value,
                    base: NumberBase::Decimal,
                },
            ),
            visitor: pass,
            error: None,
            replaced: 1,
        }),
{
}

/// A read of the target in expression position, met before any value was
/// captured, fails the pass with `UnboundConstant` and stays as it is.
pub proof fn lemma_unbound_read(pass: SubstitutionPass, read: Tree)
    requires
        pass.reads_target(read),
        pass.captured is None,
    ensures
        walk_expression_spec(pass, read) == (Outcome {
            tree: read,
            visitor: pass,
            error: Some(PassError::UnboundConstant),
            replaced: 0,
        }),
{
}

/// An identifier that is a child of an `Other` node, such as a call argument,
/// is not in expression position: it stays, whatever its name.
pub proof fn lemma_opaque_identifier(pass: SubstitutionPass, identifier: Tree)
    requires
        identifier.label is Identifier,
        identifier.children.len() == 0,
    ensures
        walk_child_spec(pass, true, identifier) == (Outcome {
            tree: identifier,
            visitor: pass,
            error: None,
            replaced: 0,
        }),
{
    assert(walk_spec(pass, identifier).tree.children =~= identifier.children);
}

/// A run of top-level declarators changes no tree, never fails, and leaves
/// the pass as the declarators leave it one after the other.
pub proof fn lemma_declarators(
    pass: SubstitutionPass,
    declarators: Seq<Tree>,
    done: Seq<Tree>,
    replaced: nat,
)
    requires
        done.len() <= declarators.len(),
        forall|m: int| 0 <= m < declarators.len() ==> declarators[m].label is VariableDeclarator,
    ensures
        walk_children_spec(pass, false, declarators, done, replaced) == (Progress {
            trees: done + declarators.skip(done.len() as int),
            visitor: after_declarators(pass, declarators, done.len() as int),
            error: None,
            replaced,
        }),
    decreases declarators.len() - done.len(),
{
    let k = done.len() as int;
    let p = walk_children_spec(pass, false, declarators, done, replaced);
    if k < declarators.len() {
        let next = pass.after_declarator(declarators[k]);
        lemma_declarator(pass, declarators[k]);
        assert(walk_child_spec(pass, false, declarators[k]) == (Outcome {
            tree: declarators[k],
            visitor: next,
            error: None,
            replaced: 0,
        }));
        lemma_declarators(next, declarators, done.push(declarators[k]), replaced);
        assert(p == walk_children_spec(
            next,
            false,
            declarators,
            done.push(declarators[k]),
            replaced,
        ));
        assert(done.push(declarators[k]) + declarators.skip(k + 1) =~= done + declarators.skip(k));
        assert(after_declarators(pass, declarators, k) == after_declarators(
            next,
            declarators,
            k + 1,
        ));
    } else {
        assert(done + declarators.skip(k) =~= done);
        assert(p.trees == done);
        assert(p.visitor == pass);
    }
}

/// Of several declarators that bind the target, the last one visited wins.
pub proof fn lemma_last_declarator_wins(
    pass: SubstitutionPass,
    declarators: Seq<Tree>,
    from: int,
    last: int,
    value: u64,
)
    requires
        0 <= from <= last < declarators.len(),
        pass.bound_value(declarators[last]) == Some(value),
        forall|m: int| last < m < declarators.len() ==> pass.bound_value(declarators[m]) is None,
    ensures
        after_declarators(pass, declarators, from).captured == Some(value),
        after_declarators(pass, declarators, from).target == pass.target,
    decreases declarators.len() - from,
{
    let next = pass.after_declarator(declarators[from]);
    assert(next.target == pass.target);
    assert forall|m: int| 0 <= m < declarators.len() implies next.bound_value(declarators[m])
        == pass.bound_value(declarators[m]) by {}
    if from < last {
        lemma_last_declarator_wins(next, declarators, from + 1, last, value);
    } else {
        lemma_bindings_kept(next, declarators, from + 1);
    }
}

/// Declarators that bind nothing to the target leave the pass as it is.
proof fn lemma_bindings_kept(pass: SubstitutionPass, declarators: Seq<Tree>, from: int)
    requires
        0 <= from <= declarators.len(),
        forall|m: int| from <= m < declarators.len() ==> pass.bound_value(declarators[m]) is None,
    ensures
        after_declarators(pass, declarators, from) == pass,
    decreases declarators.len() - from,
{
    if from < declarators.len() {
        lemma_bindings_kept(pass, declarators, from + 1);
    }
}

/// A walk of the pass is steady, keeps the label of the tree it enters by
/// kind, and replaces nothing as long as it has captured nothing.
pub proof fn lemma_walk_steady(pass: SubstitutionPass, tree: Tree)
    ensures
        steady(pass, walk_spec(pass, tree).visitor, walk_spec(pass, tree).error),
        walk_spec(pass, tree).tree.label == tree.label,
        walk_spec(pass, tree).visitor.captured is None ==> walk_spec(pass, tree).tree == tree
            && walk_spec(pass, tree).replaced == 0,
    decreases tree, 0nat,
{
    if !(tree.label is VariableDeclarator) {
        lemma_children_steady(pass, tree.label is Other, tree.children, Seq::empty(), 0);
        assert(Seq::<Tree>::empty() + tree.children.skip(0) =~= tree.children);
    }
}

/// The same for a tree met in expression position, whose label may change.
pub proof fn lemma_expression_steady(pass: SubstitutionPass, tree: Tree)
    ensures
        steady(
            pass,
            walk_expression_spec(pass, tree).visitor,
            walk_expression_spec(pass, tree).error,
        ),
        walk_expression_spec(pass, tree).visitor.captured is None ==> walk_expression_spec(
            pass,
            tree,
        ).tree == tree && walk_expression_spec(pass, tree).replaced == 0,
    decreases tree, 1nat,
{
    if !pass.reads_target(tree) {
        lemma_walk_steady(pass, tree);
    }
}

/// The same for the children of one node.
pub proof fn lemma_children_steady(
    pass: SubstitutionPass,
    opaque: bool,
    children: Seq<Tree>,
    done: Seq<Tree>,
    replaced: nat,
)
    requires
        done.len() <= children.len(),
    ensures
        steady(
            pass,
            walk_children_spec(pass, opaque, children, done, replaced).visitor,
            walk_children_spec(pass, opaque, children, done, replaced).error,
        ),
        walk_children_spec(pass, opaque, children, done, replaced).visitor.captured is None ==> {
            &&& walk_children_spec(pass, opaque, children, done, replaced).trees == done
                + children.skip(done.len() as int)
            &&& walk_children_spec(pass, opaque, children, done, replaced).replaced == replaced
        },
    decreases children, children.len() - done.len(),
{
    let k = done.len() as int;
    let p = walk_children_spec(pass, opaque, children, done, replaced);
    if k < children.len() {
        let o = walk_child_spec(pass, opaque, children[k]);
        if opaque {
            lemma_walk_steady(pass, children[k]);
        } else {
            lemma_expression_steady(pass, children[k]);
        }
        if o.error is None {
            lemma_children_steady(
                o.visitor,
                opaque,
                children,
                done.push(o.tree),
                replaced + o.replaced,
            );
        }
        if p.visitor.captured is None {
            assert(o.tree == children[k]);
            assert(o.replaced == 0);
            assert(done.push(children[k]) + children.skip(k + 1) =~= done + children.skip(k));
        }
    } else {
        assert(done + children.skip(k) =~= done);
    }
}

/// A pass that fails has changed nothing: the tree is the tree it was given,
/// no node was replaced, and nothing is captured.
pub proof fn lemma_failure_changes_nothing(pass: SubstitutionPass, tree: Tree)
    requires
        walk_spec(pass, tree).error is Some,
    ensures
        walk_spec(pass, tree).tree == tree,
        walk_spec(pass, tree).replaced == 0,
        walk_spec(pass, tree).visitor.captured is None,
        pass.captured is None,
{
    lemma_walk_steady(pass, tree);
}

/// A pass that starts with a captured value cannot fail.
pub proof fn lemma_bound_pass_succeeds(pass: SubstitutionPass, tree: Tree)
    requires
        pass.captured is Some,
    ensures
        walk_spec(pass, tree).error is None,
{
    lemma_walk_steady(pass, tree);
}

/// Running the pass a second time, from the same start, over the tree that a
/// successful first run left behind changes nothing: the second run succeeds,
/// replaces no node, ends in the same state and leaves that tree as it is.
pub proof fn lemma_second_run_changes_nothing(pass: SubstitutionPass, tree: Tree)
    requires
        walk_spec(pass, tree).error is None,
    ensures
        walk_spec(pass, walk_spec(pass, tree).tree) == (Outcome {
            tree: walk_spec(pass, tree).tree,
            visitor: walk_spec(pass, tree).visitor,
            error: None,
            replaced: 0,
        }),
    decreases tree, 0nat,
{
    if !(tree.label is VariableDeclarator) {
        let opaque = tree.label is Other;
        let p = walk_children_spec(pass, opaque, tree.children, Seq::empty(), 0);
        lemma_children_progress(pass, opaque, tree.children, Seq::empty(), 0);
        lemma_children_again(
            pass,
            opaque,
            tree.children,
            Seq::empty(),
            0,
            p.trees,
            Seq::empty(),
            0,
        );
        assert(Seq::<Tree>::empty() + p.trees.skip(0) =~= p.trees);
    }
}

proof fn lemma_expression_again(pass: SubstitutionPass, tree: Tree)
    requires
        walk_expression_spec(pass, tree).error is None,
    ensures
        walk_expression_spec(pass, walk_expression_spec(pass, tree).tree) == (Outcome {
            tree: walk_expression_spec(pass, tree).tree,
            visitor: walk_expression_spec(pass, tree).visitor,
            error: None,
            replaced: 0,
        }),
    decreases tree, 1nat,
{
    if pass.reads_target(tree) {
        let o = walk_expression_spec(pass, tree);
        assert(walk_spec(pass, o.tree).tree.children =~= o.tree.children);
    } else {
        lemma_walk_steady(pass, tree);
        lemma_second_run_changes_nothing(pass, tree);
    }
}

proof fn lemma_children_again(
    pass: SubstitutionPass,
    opaque: bool,
    children: Seq<Tree>,
    done: Seq<Tree>,
    replaced: nat,
    again: Seq<Tree>,
    done_again: Seq<Tree>,
    replaced_again: nat,
)
    requires
        done.len() == done_again.len(),
        done.len() <= children.len(),
        children.len() == again.len(),
        walk_children_spec(pass, opaque, children, done, replaced).error is None,
        forall|m: int|
            done.len() <= m < children.len() ==> again[m] == walk_children_spec(
                pass,
                opaque,
                children,
                done,
                replaced,
            ).trees[m],
    ensures
        walk_children_spec(pass, opaque, again, done_again, replaced_again) == (Progress {
            trees: done_again + walk_children_spec(
                pass,
                opaque,
                children,
                done,
                replaced,
            ).trees.skip(done.len() as int),
            visitor: walk_children_spec(pass, opaque, children, done, replaced).visitor,
            error: None,
            replaced: replaced_again,
        }),
    decreases children, children.len() - done.len(),
{
    let k = done.len() as int;
    let p = walk_children_spec(pass, opaque, children, done, replaced);
    lemma_children_progress(pass, opaque, children, done, replaced);
    if k < children.len() {
        let o = walk_child_spec(pass, opaque, children[k]);
        lemma_children_progress(
            o.visitor,
            opaque,
            children,
            done.push(o.tree),
            replaced + o.replaced,
        );
        assert(p.trees.take(k + 1) == done.push(o.tree));
        assert(p.trees[k] == p.trees.take(k + 1)[k]);
        assert(again[k] == o.tree);
        assert(o.error is None);
        if opaque {
            lemma_second_run_changes_nothing(pass, children[k]);
        } else {
            lemma_expression_again(pass, children[k]);
        }
        let o2 = walk_child_spec(pass, opaque, again[k]);
        assert(o2 == (Outcome { replaced: 0, ..o }));
        assert(p == walk_children_spec(
            o.visitor,
            opaque,
            children,
            done.push(o.tree),
            replaced + o.replaced,
        ));
        lemma_children_again(
            o.visitor,
            opaque,
            children,
            done.push(o.tree),
            replaced + o.replaced,
            again,
            done_again.push(o.tree),
            replaced_again,
        );
        let q = walk_children_spec(pass, opaque, again, done_again, replaced_again);
        assert(q == walk_children_spec(
            o.visitor,
            opaque,
            again,
            done_again.push(o.tree),
            replaced_again,
        ));
        assert(done_again.push(o.tree) + p.trees.skip(k + 1) =~= done_again + p.trees.skip(k));
    } else {
        let q = walk_children_spec(pass, opaque, again, done_again, replaced_again);
        assert(q.trees == done_again);
        assert(p.visitor == pass);
        assert(done_again + p.trees.skip(k) =~= done_again);
    }
}

} // verus!
