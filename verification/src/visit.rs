//! The visitor dispatch framework: one structural walk, written once, that a
//! pass steers through its entry points.
//!
//! Every node is entered through the entry point of its kind. The children of
//! a program, of a declarator and of a binary expression stand in expression
//! position: they are first offered to the expression entry point, which may
//! replace them, and are entered through the entry point of their kind only
//! if that one dispatches. The children of an `Other` node are entered through
//! the entry point of their kind directly. A binary expression is walked left
//! operand first. An entry point that answers anything but `Descend` or
//! `Dispatch` takes the place of the default recursion, so what a walk covers
//! is decided by the entry points alone.
use vstd::prelude::*;
use crate::arena::Arena;
use crate::node::{Node, NodeId, NodeKind, NumberBase};
use crate::tree::{Label, Tree};

verus! {

/// Why a pass gave up.
#[derive(Clone, Copy, Debug, PartialEq, Eq)]
pub enum PassError {
    /// A read of the constant was met before any value was captured for it.
    UnboundConstant,
}

/// What the entry point of a node kind decides.
#[derive(Clone, Copy, Debug, PartialEq, Eq)]
pub enum Flow {
    /// Visit the children, in order.
    Descend,
    /// Leave the subtree as it is.
    Skip,
}

/// What the expression entry point decides.
#[derive(Clone, Copy, Debug, PartialEq, Eq)]
pub enum Rewrite {
    /// Enter the node through the entry point of its kind.
    Dispatch,
    /// Leave the subtree as it is.
    Skip,
    /// Put a new numeric literal in the node's place.
    Replace { value: u64, base: NumberBase },
}

/// A pass: the entry points of the walk, one for each node kind and one for
/// expression positions.
///
/// The walk calls the entry point of a node's kind when it enters the node,
/// and `visit_expression` on every node it meets in expression position. The
/// default of an entry point is to answer `Descend` (`Dispatch` for
/// `visit_expression`), which lets the walk recurse into the children in
/// order. A pass overrides an entry point by answering anything else there;
/// the walk then does not recurse by itself.
///
/// What the entry points decide is a function of the pass and of the subtree
/// they are shown: `enter_spec` for the entry points of the node kinds,
/// `expression_spec` for `visit_expression`.
pub trait Visitor: Sized {
    spec fn enter_spec(self, subtree: Tree) -> (Result<Flow, PassError>, Self);

    spec fn expression_spec(self, subtree: Tree) -> (Result<Rewrite, PassError>, Self);

    fn visit_program(&mut self, arena: &Arena, id: NodeId) -> (r: Result<Flow, PassError>)
        requires
            arena.wf(),
            arena.contains(id),
            arena.node(id).label() is Program,
        ensures
            (r, *final(self)) == old(self).enter_spec(arena.tree(id)),
    ;

    fn visit_variable_declarator(&mut self, arena: &Arena, id: NodeId) -> (r: Result<
        Flow,
        PassError,
    >)
        requires
            arena.wf(),
            arena.contains(id),
            arena.node(id).label() is VariableDeclarator,
        ensures
            (r, *final(self)) == old(self).enter_spec(arena.tree(id)),
    ;

    fn visit_identifier(&mut self, arena: &Arena, id: NodeId) -> (r: Result<Flow, PassError>)
        requires
            arena.wf(),
            arena.contains(id),
            arena.node(id).label() is Identifier,
        ensures
            (r, *final(self)) == old(self).enter_spec(arena.tree(id)),
    ;

    fn visit_numeric_literal(&mut self, arena: &Arena, id: NodeId) -> (r: Result<Flow, PassError>)
        requires
            arena.wf(),
            arena.contains(id),
            arena.node(id).label() is NumericLiteral,
        ensures
            (r, *final(self)) == old(self).enter_spec(arena.tree(id)),
    ;

    fn visit_binary_expression(&mut self, arena: &Arena, id: NodeId) -> (r: Result<
        Flow,
        PassError,
    >)
        requires
            arena.wf(),
            arena.contains(id),
            arena.node(id).label() is BinaryExpression,
        ensures
            (r, *final(self)) == old(self).enter_spec(arena.tree(id)),
    ;

    fn visit_other(&mut self, arena: &Arena, id: NodeId) -> (r: Result<Flow, PassError>)
        requires
            arena.wf(),
            arena.contains(id),
            arena.node(id).label() is Other,
        ensures
            (r, *final(self)) == old(self).enter_spec(arena.tree(id)),
    ;

    fn visit_expression(&mut self, arena: &Arena, id: NodeId) -> (r: Result<Rewrite, PassError>)
        requires
            arena.wf(),
            arena.contains(id),
        ensures
            (r, *final(self)) == old(self).expression_spec(arena.tree(id)),
    ;
}

/// The pass that overrides no entry point: every hook keeps the default.
#[derive(Clone, Copy, Debug, PartialEq, Eq)]
pub struct Defaults;

impl Visitor for Defaults {
    open spec fn enter_spec(self, subtree: Tree) -> (Result<Flow, PassError>, Self) {
        (Ok(Flow::Descend), self)
    }

    open spec fn expression_spec(self, subtree: Tree) -> (Result<Rewrite, PassError>, Self) {
        (Ok(Rewrite::Dispatch), self)
    }

    fn visit_program(&mut self, arena: &Arena, id: NodeId) -> (r: Result<Flow, PassError>) {
        Ok(Flow::Descend)
    }

    fn visit_variable_declarator(&mut self, arena: &Arena, id: NodeId) -> (r: Result<
        Flow,
        PassError,
    >) {
        Ok(Flow::Descend)
    }

    fn visit_identifier(&mut self, arena: &Arena, id: NodeId) -> (r: Result<Flow, PassError>) {
        Ok(Flow::Descend)
    }

    fn visit_numeric_literal(&mut self, arena: &Arena, id: NodeId) -> (r: Result<Flow, PassError>) {
        Ok(Flow::Descend)
    }

    fn visit_binary_expression(&mut self, arena: &Arena, id: NodeId) -> (r: Result<
        Flow,
        PassError,
    >) {
        Ok(Flow::Descend)
    }

    fn visit_other(&mut self, arena: &Arena, id: NodeId) -> (r: Result<Flow, PassError>) {
        Ok(Flow::Descend)
    }

    fn visit_expression(&mut self, arena: &Arena, id: NodeId) -> (r: Result<Rewrite, PassError>) {
        Ok(Rewrite::Dispatch)
    }
}

/// Where a walk over one tree ends: the tree and the pass as the walk left
/// them, the error that stopped it, if one did, and the number of nodes that
/// it replaced.
pub struct Outcome<V> {
    pub tree: Tree,
    pub visitor: V,
    pub error: Option<PassError>,
    pub replaced: nat,
}

impl<V> Outcome<V> {
    pub open spec fn result(self) -> Result<(), PassError> {
        match self.error {
            Some(e) => Err(e),
            None => Ok(()),
        }
    }
}

/// Where a walk over the children of one node stands.
pub struct Progress<V> {
    pub trees: Seq<Tree>,
    pub visitor: V,
    pub error: Option<PassError>,
    pub replaced: nat,
}

/// The walk of a tree entered through the entry point of its kind.
pub open spec fn walk_spec<V: Visitor>(visitor: V, tree: Tree) -> Outcome<V>
    decreases tree, 0nat,
{
    let (decision, entered) = visitor.enter_spec(tree);
    match decision {
        Err(e) => Outcome { tree, visitor: entered, error: Some(e), replaced: 0 },
        Ok(Flow::Skip) => Outcome { tree, visitor: entered, error: None, replaced: 0 },
        Ok(Flow::Descend) => {
            let p = walk_children_spec(
                entered,
                tree.label is Other,
                tree.children,
                Seq::empty(),
                0,
            );
            Outcome {
                tree: Tree { label: tree.label, children: p.trees },
                visitor: p.visitor,
                error: p.error,
                replaced: p.replaced,
            }
        },
    }
}

/// The walk of a tree met in expression position.
pub open spec fn walk_expression_spec<V: Visitor>(visitor: V, tree: Tree) -> Outcome<V>
    decreases tree, 1nat,
{
    let (decision, entered) = visitor.expression_spec(tree);
    match decision {
        Err(e) => Outcome { tree, visitor: entered, error: Some(e), replaced: 0 },
        Ok(Rewrite::Skip) => Outcome { tree, visitor: entered, error: None, replaced: 0 },
        Ok(Rewrite::Replace { value, base }) => Outcome {
            tree: Tree::literal_in_place_of(tree, value, base),
            visitor: entered,
            error: None,
            replaced: 1,
        },
        Ok(Rewrite::Dispatch) => walk_spec(entered, tree),
    }
}

/// The walk of one child: through the entry point of its kind below an
/// `Other` node (`opaque`), in expression position below any other node.
pub open spec fn walk_child_spec<V: Visitor>(visitor: V, opaque: bool, tree: Tree) -> Outcome<V>
    decreases tree, 2nat,
{
    if opaque {
        walk_spec(visitor, tree)
    } else {
        walk_expression_spec(visitor, tree)
    }
}

/// The walk of the children from position `done.len()` on, left to right,
/// where `done` holds the children before that position as the walk left
/// them and `replaced` counts the nodes replaced below them. The first error
/// stops the walk; the children after the failing one stay as they are.
pub open spec fn walk_children_spec<V: Visitor>(
    visitor: V,
    opaque: bool,
    children: Seq<Tree>,
    done: Seq<Tree>,
    replaced: nat,
) -> Progress<V>
    decreases children, children.len() - done.len(),
{
    if done.len() >= children.len() {
        Progress { trees: done, visitor, error: None, replaced }
    } else {
        let k = done.len() as int;
        let o = walk_child_spec(visitor, opaque, children[k]);
        if o.error is Some {
            Progress {
                trees: done.push(o.tree) + children.skip(k + 1),
                visitor: o.visitor,
                error: o.error,
                replaced: replaced + o.replaced,
            }
        } else {
            walk_children_spec(
                o.visitor,
                opaque,
                children,
                done.push(o.tree),
                replaced + o.replaced,
            )
        }
    }
}

/// A walk over children keeps their number and keeps what was done before it.
pub proof fn lemma_children_progress<V: Visitor>(
    visitor: V,
    opaque: bool,
    children: Seq<Tree>,
    done: Seq<Tree>,
    replaced: nat,
)
    requires
        done.len() <= children.len(),
    ensures
        walk_children_spec(visitor, opaque, children, done, replaced).trees.len() == children.len(),
        walk_children_spec(visitor, opaque, children, done, replaced).trees.take(
            done.len() as int,
        ) == done,
        walk_children_spec(visitor, opaque, children, done, replaced).replaced >= replaced,
    decreases children.len() - done.len(),
{
    let p = walk_children_spec(visitor, opaque, children, done, replaced);
    if done.len() < children.len() {
        let k = done.len() as int;
        let o = walk_child_spec(visitor, opaque, children[k]);
        if o.error is None {
            lemma_children_progress(
                o.visitor,
                opaque,
                children,
                done.push(o.tree),
                replaced + o.replaced,
            );
            assert(p.trees.take(k + 1) == done.push(o.tree));
            assert(p.trees.take(k + 1).take(k) =~= p.trees.take(k));
        }
    }
    assert(p.trees.take(done.len() as int) =~= done);
}

/// The default recursion alone reaches every node, changes nothing and never fails.
pub proof fn lemma_defaults(tree: Tree)
    ensures
        walk_spec(Defaults, tree) == (Outcome {
            tree,
            visitor: Defaults,
            error: None,
            replaced: 0,
        }),
        walk_expression_spec(Defaults, tree) == walk_spec(Defaults, tree),
    decreases tree, 0nat,
{
    lemma_defaults_children(tree.label is Other, tree.children, Seq::empty(), 0);
    assert(Seq::<Tree>::empty() + tree.children.skip(0) =~= tree.children);
}

proof fn lemma_defaults_children(opaque: bool, children: Seq<Tree>, done: Seq<Tree>, replaced: nat)
    requires
        done.len() <= children.len(),
    ensures
        walk_children_spec(Defaults, opaque, children, done, replaced) == (Progress {
            trees: done + children.skip(done.len() as int),
            visitor: Defaults,
            error: None,
            replaced,
        }),
    decreases children, children.len() - done.len(),
{
    let k = done.len() as int;
    let p = walk_children_spec(Defaults, opaque, children, done, replaced);
    if k < children.len() {
        lemma_defaults(children[k]);
        assert(walk_child_spec(Defaults, opaque, children[k]) == (Outcome {
            tree: children[k],
            visitor: Defaults,
            error: None,
            replaced: 0,
        }));
        lemma_defaults_children(opaque, children, done.push(children[k]), replaced);
        assert(p == walk_children_spec(
            Defaults,
            opaque,
            children,
            done.push(children[k]),
            replaced,
        ));
        assert(done.push(children[k]) + children.skip(k + 1) =~= done + children.skip(k));
    } else {
        assert(p.trees == done);
        assert(done + children.skip(k) =~= done);
    }
}

/// The operands of a binary expression are walked in expression position,
/// the left one first and the right one by the pass as the left one left it.
/// An error at the left operand leaves the right one as it was.
pub proof fn lemma_binary_expression_order<V: Visitor>(visitor: V, tree: Tree)
    requires
        tree.label is BinaryExpression,
        tree.children.len() == 2,
        visitor.enter_spec(tree).0 == Ok::<Flow, PassError>(Flow::Descend),
    ensures
        ({
            let left = walk_expression_spec(visitor.enter_spec(tree).1, tree.children[0]);
            let right = walk_expression_spec(left.visitor, tree.children[1]);
            walk_spec(visitor, tree) == if left.error is Some {
                Outcome {
                    tree: Tree { label: tree.label, children: seq![left.tree, tree.children[1]] },
                    visitor: left.visitor,
                    error: left.error,
                    replaced: left.replaced,
                }
            } else {
                Outcome {
                    tree: Tree { label: tree.label, children: seq![left.tree, right.tree] },
                    visitor: right.visitor,
                    error: right.error,
                    replaced: left.replaced + right.replaced,
                }
            }
        }),
{
    let entered = visitor.enter_spec(tree).1;
    let left = walk_child_spec(entered, false, tree.children[0]);
    let right = walk_child_spec(left.visitor, false, tree.children[1]);
    let p = walk_children_spec(entered, false, tree.children, Seq::empty(), 0);
    let first = Seq::<Tree>::empty().push(left.tree);
    if left.error is Some {
        assert(p.trees =~= seq![left.tree, tree.children[1]]);
    } else {
        let q = walk_children_spec(left.visitor, false, tree.children, first, left.replaced);
        assert(p == q);
        if right.error is Some {
            assert(q.trees =~= seq![left.tree, right.tree]);
        } else {
            let last = walk_children_spec(
                right.visitor,
                false,
                tree.children,
                first.push(right.tree),
                left.replaced + right.replaced,
            );
            assert(q == last);
            assert(last.trees =~= seq![left.tree, right.tree]);
        }
    }
}

/// A walk keeps every span where it is: the literal that takes the place of
/// a node has that node's span. So a tree whose spans are nested is still one
/// after the walk, whatever the pass.
pub proof fn lemma_walk_keeps_spans<V: Visitor>(visitor: V, tree: Tree)
    requires
        tree.spans_nested(),
    ensures
        walk_spec(visitor, tree).tree.spans_nested(),
        walk_spec(visitor, tree).tree.label == tree.label,
    decreases tree, 0nat,
{
    let (decision, entered) = visitor.enter_spec(tree);
    if decision == Ok::<Flow, PassError>(Flow::Descend) {
        lemma_children_keep_spans(entered, tree.label is Other, tree.children, Seq::empty(), 0);
        lemma_children_progress(entered, tree.label is Other, tree.children, Seq::empty(), 0);
        let after = walk_spec(visitor, tree).tree;
        assert forall|k: int| 0 <= k < after.children.len() implies {
            &&& after.label.span().start <= (#[trigger] after.children[k]).label.span().start
            &&& after.children[k].label.span().end <= after.label.span().end
            &&& after.children[k].spans_nested()
        } by {
            assert(tree.children[k].spans_nested());
        }
        assert forall|k1: int, k2: int| 0 <= k1 < k2 < after.children.len() implies (
        #[trigger] after.children[k1]).label.span().end <= (
        #[trigger] after.children[k2]).label.span().start by {
            assert(tree.children[k1].label.span().end <= tree.children[k2].label.span().start);
        }
    }
}

/// The same for a tree met in expression position, whose label may change but
/// whose span does not.
pub proof fn lemma_expression_keeps_spans<V: Visitor>(visitor: V, tree: Tree)
    requires
        tree.spans_nested(),
    ensures
        walk_expression_spec(visitor, tree).tree.spans_nested(),
        walk_expression_spec(visitor, tree).tree.label.span() == tree.label.span(),
    decreases tree, 1nat,
{
    let (decision, entered) = visitor.expression_spec(tree);
    if decision == Ok::<Rewrite, PassError>(Rewrite::Dispatch) {
        lemma_walk_keeps_spans(entered, tree);
    }
}

proof fn lemma_children_keep_spans<V: Visitor>(
    visitor: V,
    opaque: bool,
    children: Seq<Tree>,
    done: Seq<Tree>,
    replaced: nat,
)
    requires
        done.len() <= children.len(),
        forall|k: int| 0 <= k < children.len() ==> (#[trigger] children[k]).spans_nested(),
        forall|k: int|
            0 <= k < done.len() ==> (#[trigger] done[k]).spans_nested() && done[k].label.span()
                == children[k].label.span(),
    ensures
        forall|k: int|
            0 <= k < children.len() ==> {
                &&& (#[trigger] walk_children_spec(
                    visitor,
                    opaque,
                    children,
                    done,
                    replaced,
                ).trees[k]).spans_nested()
                &&& walk_children_spec(
                    visitor,
                    opaque,
                    children,
                    done,
                    replaced,
                ).trees[k].label.span() == children[k].label.span()
            },
    decreases children, children.len() - done.len(),
{
    let k = done.len() as int;
    if k < children.len() {
        let o = walk_child_spec(visitor, opaque, children[k]);
        if opaque {
            lemma_walk_keeps_spans(visitor, children[k]);
        } else {
            lemma_expression_keeps_spans(visitor, children[k]);
        }
        if o.error is None {
            lemma_children_keep_spans(
                o.visitor,
                opaque,
                children,
                done.push(o.tree),
                replaced + o.replaced,
            );
        }
    }
}

/// A child that no step has touched yet is the tree it was.
proof fn lemma_untouched_child(before: &Arena, now: &Arena, parent: NodeId, m: int)
    requires
        before.wf(),
        now.wf(),
        now.extends(before),
        before.contains(parent),
        0 <= m < before.node(parent).child_ids().len(),
        forall|j: NodeId| #[trigger]
            before.within(before.node(parent).child_ids()[m], j) ==> now.node(j) == before.node(j),
    ensures
        now.tree(before.node(parent).child_ids()[m]) == before.tree(
            before.node(parent).child_ids()[m],
        ),
        forall|j: NodeId|
            now.within(before.node(parent).child_ids()[m], j) == before.within(
                before.node(parent).child_ids()[m],
                j,
            ),
{
    let c = before.node(parent).child_ids()[m];
    before.lemma_child(parent, m);
    assert forall|j: NodeId| before.contains(j) && #[trigger] before.within(c, j) implies {
        &&& now.contains(j)
        &&& now.node(j) == before.node(j)
        &&& now.rank(j) == before.rank(j)
    } by {
        assert(now.contains(j));
    }
    before.lemma_frame(now, c);
}

/// A step on child `k` leaves the tree below every other child as it was.
proof fn lemma_sibling_kept(mid: &Arena, after: &Arena, parent: NodeId, k: int, m: int)
    requires
        mid.wf(),
        after.wf(),
        after.extends(mid),
        mid.contains(parent),
        0 <= k < mid.node(parent).child_ids().len(),
        0 <= m < mid.node(parent).child_ids().len(),
        k != m,
        forall|j: NodeId|
            mid.contains(j) && j != parent && !mid.within(mid.node(parent).child_ids()[k], j)
                ==> #[trigger] after.node(j) == mid.node(j),
    ensures
        after.tree(mid.node(parent).child_ids()[m]) == mid.tree(mid.node(parent).child_ids()[m]),
{
    let c = mid.node(parent).child_ids()[m];
    mid.lemma_child(parent, m);
    mid.lemma_siblings(parent, k, m);
    assert forall|j: NodeId| mid.contains(j) && #[trigger] mid.within(c, j) implies after.contains(
        j,
    ) && after.node(j) == mid.node(j) && after.rank(j) == mid.rank(j) by {
        assert(!mid.within(c, parent));
        assert(j != parent);
        assert(!(mid.within(mid.node(parent).child_ids()[k], j) && mid.within(
            mid.node(parent).child_ids()[m],
            j,
        )));
        assert(!mid.within(mid.node(parent).child_ids()[k], j));
        assert(after.node(j) == mid.node(j));
        assert(after.contains(j));
    }
    mid.lemma_frame(after, c);
}

/// Walks the subtree below `id`, entered through the entry point of its kind.
///
/// The tree below `id` and the pass end as `walk_spec` says, also when the
/// walk fails. Slots outside that subtree keep their nodes, and the arena
/// stays a forest.
#[verifier::loop_isolation(false)]
pub fn walk<V: Visitor>(visitor: &mut V, arena: &mut Arena, id: NodeId) -> (r: Result<
    (),
    PassError,
>)
    requires
        old(arena).wf(),
        old(arena).contains(id),
    ensures
        final(arena).wf(),
        final(arena).extends(old(arena)),
        final(arena).differs_within(old(arena), id),
        final(arena).tree(id) == walk_spec(*old(visitor), old(arena).tree(id)).tree,
        *final(visitor) == walk_spec(*old(visitor), old(arena).tree(id)).visitor,
        r == walk_spec(*old(visitor), old(arena).tree(id)).result(),
        final(arena).spec_len() == old(arena).spec_len() + walk_spec(
            *old(visitor),
            old(arena).tree(id),
        ).replaced,
    decreases old(arena).rank(id), 1nat,
{
    let ghost before = *arena;
    let (n, kind): (usize, NodeKind) = match arena.get(id) {
        Some(node) => (node.child_count(), node.kind()),
        None => (0, NodeKind::Other),
    };
    let entry = match kind {
        NodeKind::Program => visitor.visit_program(arena, id),
        NodeKind::VariableDeclarator => visitor.visit_variable_declarator(arena, id),
        NodeKind::Identifier => visitor.visit_identifier(arena, id),
        NodeKind::NumericLiteral => visitor.visit_numeric_literal(arena, id),
        NodeKind::BinaryExpression => visitor.visit_binary_expression(arena, id),
        NodeKind::Other => visitor.visit_other(arena, id),
    };
    let flow = match entry {
        Ok(flow) => flow,
        Err(e) => {
            return Err(e);
        },
    };
    let ghost entered = *visitor;
    let opaque = match kind {
        NodeKind::Other => true,
        _ => false,
    };
    match flow {
        Flow::Skip => {
            return Ok(());
        },
        Flow::Descend => {},
    }
    let ghost ids = before.node(id).child_ids();
    let ghost trees = before.tree(id).children;
    let ghost done: Seq<Tree> = Seq::empty();
    let ghost replaced: nat = 0;
    proof {
        before.lemma_tree_unfold(id);
        before.lemma_within(id, id);
    }
    let mut k: usize = 0;
    while k < n
        invariant
            before.wf(),
            before.contains(id),
            ids == before.node(id).child_ids(),
            trees == before.tree(id).children,
            trees.len() == n,
            ids.len() == n,
            opaque == (before.node(id).label() is Other),
            before.tree(id).label == before.node(id).label(),
            forall|m: int| 0 <= m < n ==> trees[m] == before.tree(#[trigger] ids[m]),
            k <= n,
            arena.wf(),
            arena.extends(&before),
            arena.differs_within(&before, id),
            arena.node(id).label() == before.node(id).label(),
            arena.node(id).child_ids().len() == n,
            forall|m: int| k <= m < n ==> arena.node(id).child_ids()[m] == ids[m],
            forall|m: int, j: NodeId|
                k <= m < n && #[trigger] before.within(ids[m], j) ==> arena.node(j) == before.node(
                    j,
                ),
            done.len() == k,
            forall|m: int|
                0 <= m < k ==> arena.tree(#[trigger] arena.node(id).child_ids()[m]) == done[m],
            arena.spec_len() == before.spec_len() + replaced,
            walk_children_spec(entered, opaque, trees, Seq::empty(), 0) == walk_children_spec(
                *visitor,
                opaque,
                trees,
                done,
                replaced,
            ),
        decreases n - k,
    {
        let ghost mid = *arena;
        let ghost current = *visitor;
        let ghost c = ids[k as int];
        proof {
            lemma_untouched_child(&before, &mid, id, k as int);
            before.lemma_child(id, k as int);
            assert(mid.contains(id));
        }
        let r = walk_child(visitor, arena, id, k);
        let ghost o = walk_child_spec(current, opaque, trees[k as int]);
        proof {
            let x = arena.node(id).child_ids()[k as int];
            assert(arena.tree(x) == o.tree);
            arena.lemma_extends_twice(&before, &mid);
            assert(arena.extends(&before));
            assert forall|j: NodeId|
                before.contains(j) && !before.within(id, j) implies #[trigger] arena.node(j)
                == before.node(j) by {
                assert(before.within(id, id));
                assert(j != id);
                assert(!before.within(c, j));
                assert(mid.within(c, j) == before.within(c, j));
                assert(mid.contains(j));
                assert(mid.node(j) == before.node(j));
            }
            assert forall|m: int, j: NodeId|
                k + 1 <= m < n && #[trigger] before.within(ids[m], j) implies arena.node(j)
                == before.node(j) by {
                before.lemma_child(id, m);
                before.lemma_siblings(id, k as int, m);
                before.lemma_within(ids[m], j);
                assert(before.contains(j));
                assert(!before.within(ids[m], id));
                assert(j != id);
                assert(!(before.within(ids[k as int], j) && before.within(ids[m], j)));
                assert(!before.within(c, j));
                assert(mid.within(c, j) == before.within(c, j));
                assert(mid.contains(j));
                assert(mid.node(j) == before.node(j));
            }
            assert forall|m: int| 0 <= m < k implies arena.tree(
                #[trigger] arena.node(id).child_ids()[m],
            ) == done[m] by {
                lemma_sibling_kept(&mid, arena, id, k as int, m);
                assert(arena.node(id).child_ids()[m] == mid.node(id).child_ids()[m]);
            }
            assert forall|m: int| k + 1 <= m < n implies arena.tree(ids[m]) == trees[m] by {
                lemma_untouched_child(&before, arena, id, m);
            }
            done = done.push(o.tree);
            replaced = replaced + o.replaced;
        }
        match r {
            Ok(()) => {},
            Err(e) => {
                proof {
                    arena.lemma_tree_unfold(id);
                    let p = walk_children_spec(entered, opaque, trees, Seq::empty(), 0);
                    assert(p.trees == done + trees.skip(k + 1));
                    assert(arena.tree(id).children =~= p.trees);
                }
                return Err(e);
            },
        }
        k += 1;
    }
    proof {
        arena.lemma_tree_unfold(id);
        assert(arena.tree(id).children =~= done);
    }
    Ok(())
}

/// Walks child `k` of `parent` in the position it stands in.
fn walk_child<V: Visitor>(visitor: &mut V, arena: &mut Arena, parent: NodeId, k: usize) -> (r:
    Result<(), PassError>)
    requires
        old(arena).wf(),
        old(arena).contains(parent),
        k < old(arena).node(parent).child_ids().len(),
    ensures
        final(arena).wf(),
        final(arena).extends(old(arena)),
        final(arena).node(parent).label() == old(arena).node(parent).label(),
        final(arena).node(parent).child_ids() == old(arena).node(parent).child_ids().update(
            k as int,
            final(arena).node(parent).child_ids()[k as int],
        ),
        forall|j: NodeId|
            old(arena).contains(j) && j != parent && !old(arena).within(
                old(arena).node(parent).child_ids()[k as int],
                j,
            ) ==> #[trigger] final(arena).node(j) == old(arena).node(j),
        ({
            let o = walk_child_spec(
                *old(visitor),
                old(arena).node(parent).label() is Other,
                old(arena).tree(old(arena).node(parent).child_ids()[k as int]),
            );
            &&& final(arena).tree(final(arena).node(parent).child_ids()[k as int]) == o.tree
            &&& *final(visitor) == o.visitor
            &&& r == o.result()
            &&& final(arena).spec_len() == old(arena).spec_len() + o.replaced
        }),
    decreases old(arena).rank(parent), 0nat,
{
    let ghost before = *arena;
    let (child, opaque): (NodeId, bool) = match arena.get(parent) {
        Some(node) => (
            match node.child(k) {
                Some(c) => c,
                None => parent,
            },
            match node {
                Node::Other { .. } => true,
                _ => false,
            },
        ),
        None => (parent, false),
    };
    proof {
        before.lemma_child(parent, k as int);
        assert(before.node(parent).child_ids() =~= before.node(parent).child_ids().update(
            k as int,
            child,
        ));
    }
    if opaque {
        return walk(visitor, arena, child);
    }
    let rewrite = match visitor.visit_expression(arena, child) {
        Ok(rewrite) => rewrite,
        Err(e) => {
            return Err(e);
        },
    };
    match rewrite {
        Rewrite::Skip => Ok(()),
        Rewrite::Dispatch => walk(visitor, arena, child),
        Rewrite::Replace { value, base } => {
            let _ = arena.replace_with_literal(parent, k, value, base);
            Ok(())
        },
    }
}

} // verus!
