//! The node arena: the one owner of every node of a run.
//!
//! Nodes refer to their children by slot. The arena keeps the slots a forest:
//! a node is stored only if it can become the sole owner of each of its
//! children, so no subtree is ever shared and no node is below itself. Its
//! view of a slot is the [`Tree`] below it.
use vstd::prelude::*;
use crate::node::{Node, NodeId, NumberBase};
use crate::tree::Tree;

verus! {

/// Proof-only bookkeeping of the forest's shape.
struct Shape {
    /// A height for every slot, strictly greater than the heights of its children.
    height: Seq<nat>,
    /// For every slot that is a child, its parent and its position there.
    owner: Seq<Option<(int, int)>>,
    /// A strict upper bound of all heights.
    ceiling: nat,
}

/// Owns every node of one run. Nodes are added and never removed one by one;
/// [`Arena::clear`] releases all of them together.
pub struct Arena {
    nodes: Vec<Node>,
    attached: Vec<bool>,
    shape: Ghost<Shape>,
}

impl Arena {
    spec fn count(&self) -> int {
        self.nodes@.len() as int
    }

    spec fn arity(&self, p: int) -> int {
        self.nodes@[p].child_ids().len() as int
    }

    spec fn kid(&self, p: int, k: int) -> int {
        self.nodes@[p].child_ids()[k].index as int
    }

    spec fn edge(&self, p: int, k: int) -> bool {
        0 <= p < self.count() && 0 <= k < self.arity(p)
    }

    spec fn height(&self, i: int) -> nat {
        self.shape@.height[i]
    }

    spec fn owner(&self, i: int) -> Option<(int, int)> {
        self.shape@.owner[i]
    }

    /// The arena holds a forest: every child handle names a slot of the arena,
    /// no slot is the child of two nodes or twice the child of one, and no node
    /// is its own descendant.
    pub closed spec fn wf(&self) -> bool {
        &&& self.attached@.len() == self.nodes@.len()
        &&& self.shape@.height.len() == self.nodes@.len()
        &&& self.shape@.owner.len() == self.nodes@.len()
        &&& forall|i: int| 0 <= i < self.count() ==> #[trigger] self.height(i) < self.shape@.ceiling
        &&& forall|p: int, k: int| #[trigger]
            self.edge(p, k) ==> {
                &&& 0 <= self.kid(p, k) < self.count()
                &&& self.height(self.kid(p, k)) < self.height(p)
                &&& self.owner(self.kid(p, k)) == Some((p, k))
            }
        &&& forall|c: int|
            0 <= c < self.count() && (#[trigger] self.owner(c)) is Some ==> {
                &&& self.edge(self.owner(c).unwrap().0, self.owner(c).unwrap().1)
                &&& self.kid(self.owner(c).unwrap().0, self.owner(c).unwrap().1) == c
            }
        &&& forall|c: int|
            0 <= c < self.count() && (#[trigger] self.owner(c)) is Some ==> self.attached@[c]
    }

    /// The number of slots.
    pub closed spec fn spec_len(&self) -> usize {
        self.nodes.len()
    }

    /// `id` names a slot of this arena.
    pub open spec fn contains(&self, id: NodeId) -> bool {
        id.index < self.spec_len()
    }

    /// The node stored in slot `id`.
    pub closed spec fn node(&self, id: NodeId) -> Node {
        self.nodes@[id.index as int]
    }

    /// `id` names a slot that no node has ever held as a child.
    pub closed spec fn is_free(&self, id: NodeId) -> bool {
        id.index < self.nodes@.len() && !self.attached@[id.index as int]
    }

    spec fn child_ok(&self, p: int, k: int) -> bool {
        &&& self.edge(p, k)
        &&& 0 <= self.kid(p, k) < self.count()
        &&& 0 <= p < self.shape@.height.len()
        &&& self.kid(p, k) < self.shape@.height.len()
        &&& self.height(self.kid(p, k)) < self.height(p)
    }

    spec fn tree_at(&self, i: int) -> Tree
        decreases (if 0 <= i < self.shape@.height.len() { self.height(i) } else { 0 }),
    {
        Tree {
            label: self.nodes@[i].label(),
            children: Seq::new(
                self.nodes@[i].child_ids().len(),
                |k: int|
                    if self.child_ok(i, k) {
                        self.tree_at(self.kid(i, k))
                    } else {
                        arbitrary()
                    },
            ),
        }
    }

    spec fn within_at(&self, root: int, j: int) -> bool
        decreases (if 0 <= root < self.shape@.height.len() { self.height(root) } else { 0 }),
    {
        j == root || exists|k: int|
            #[trigger] self.child_ok(root, k) && self.within_at(self.kid(root, k), j)
    }

    /// The subtree below slot `id`, as a value.
    pub closed spec fn tree(&self, id: NodeId) -> Tree {
        self.tree_at(id.index as int)
    }

    /// Slot `j` is `root` or one of its descendants.
    pub closed spec fn within(&self, root: NodeId, j: NodeId) -> bool {
        self.within_at(root.index as int, j.index as int)
    }

    /// A measure that is strictly smaller for a child than for its parent.
    pub closed spec fn rank(&self, id: NodeId) -> nat {
        self.height(id.index as int)
    }

    /// `self` has grown out of `before` by replacements alone: it has every
    /// slot of `before`, with the same rank, the same freedom and the same
    /// label, and the slots it has beyond those hold numeric literals that a
    /// node owns.
    pub open spec fn extends(&self, before: &Arena) -> bool {
        &&& before.spec_len() <= self.spec_len()
        &&& forall|j: NodeId|
            before.contains(j) ==> {
                &&& #[trigger] self.contains(j)
                &&& self.rank(j) == before.rank(j)
                &&& self.is_free(j) == before.is_free(j)
                &&& self.node(j).label() == before.node(j).label()
            }
        &&& forall|j: NodeId|
            #[trigger] self.contains(j) && !before.contains(j) ==> !self.is_free(j) && self.node(
                j,
            ).label() is NumericLiteral
    }

    /// Every slot of `before` outside the subtree below `root` holds in `self`
    /// the node it held in `before`.
    pub open spec fn differs_within(&self, before: &Arena, root: NodeId) -> bool {
        forall|j: NodeId|
            before.contains(j) && !before.within(root, j) ==> #[trigger] self.node(j)
                == before.node(j)
    }

    /// The children named by `ids` can all be adopted by one new node: each
    /// names a free slot, and no slot is named twice.
    pub open spec fn adoptable(&self, ids: Seq<NodeId>) -> bool {
        &&& forall|m: int| 0 <= m < ids.len() ==> self.is_free(#[trigger] ids[m])
        &&& forall|m1: int, m2: int| 0 <= m1 < m2 < ids.len() ==> ids[m1] != ids[m2]
    }

    /// An empty arena. It shares nothing with any other arena.
    pub fn new() -> (arena: Arena)
        ensures
            arena.wf(),
            arena.spec_len() == 0,
    {
        Arena {
            nodes: Vec::new(),
            attached: Vec::new(),
            shape: Ghost(Shape { height: Seq::empty(), owner: Seq::empty(), ceiling: 1 }),
        }
    }

    /// The number of slots.
    #[verifier::when_used_as_spec(spec_len)]
    pub fn len(&self) -> (n: usize)
        ensures
            n == self.spec_len(),
    {
        self.nodes.len()
    }

    /// The node in slot `id`, if the arena has such a slot.
    pub fn get(&self, id: NodeId) -> (r: Option<&Node>)
        ensures
            r == (if self.contains(id) {
                Some(&self.node(id))
            } else {
                None
            }),
    {
        if id.index < self.nodes.len() {
            Some(&self.nodes[id.index])
        } else {
            None
        }
    }

    /// Stores `node` in a new slot and makes it the owner of its children.
    ///
    /// The node is stored exactly when its children can all be adopted;
    /// otherwise nothing changes.
    pub fn allocate(&mut self, node: Node) -> (r: Option<NodeId>)
        requires
            old(self).wf(),
        ensures
            final(self).wf(),
            r is Some <==> old(self).adoptable(node.child_ids()),
            forall|j: NodeId| old(self).contains(j) ==> #[trigger] final(self).contains(j),
            forall|j: NodeId|
                old(self).contains(j) ==> #[trigger] final(self).node(j) == old(self).node(j),
            forall|j: NodeId|
                old(self).contains(j) ==> #[trigger] final(self).tree(j) == old(self).tree(j),
            forall|j: NodeId|
                old(self).contains(j) ==> #[trigger] final(self).rank(j) == old(self).rank(j),
            match r {
                Some(id) => {
                    &&& id.index == old(self).spec_len()
                    &&& final(self).spec_len() == old(self).spec_len() + 1
                    &&& final(self).node(id) == node
                    &&& final(self).tree(id) == (Tree {
                        label: node.label(),
                        children: Seq::new(
                            node.child_ids().len(),
                            |k: int| old(self).tree(node.child_ids()[k]),
                        ),
                    })
                    &&& final(self).is_free(id)
                    &&& forall|j: NodeId|
                        old(self).contains(j) ==> (#[trigger] final(self).is_free(j) <==> old(
                            self,
                        ).is_free(j) && !node.child_ids().contains(j))
                },
                None => {
                    &&& final(self).spec_len() == old(self).spec_len()
                    &&& forall|j: NodeId| #[trigger] final(self).is_free(j) == old(self).is_free(j)
                },
            },
    {
        let ghost before = *self;
        let ghost ids = node.child_ids();
        let ghost count = self.count();
        let n: usize = node.child_count();
        let mut owner: Ghost<Seq<Option<(int, int)>>> = Ghost(self.shape@.owner);
        let mut k: usize = 0;
        let mut clash: bool = false;
        while k < n && !clash
            invariant
                before.wf(),
                ids == node.child_ids(),
                count == before.count(),
                k <= n == ids.len(),
                self.nodes == before.nodes,
                self.shape == before.shape,
                self.attached@.len() == count,
                owner@.len() == count,
                clash ==> k < n && (ids[k as int].index >= count
                    || self.attached@[ids[k as int].index as int]),
                forall|i: int| 0 <= i < count && before.attached@[i] ==> self.attached@[i],
                forall|m: int|
                    0 <= m < k ==> {
                        &&& (#[trigger] ids[m]).index < count
                        &&& !before.attached@[ids[m].index as int]
                        &&& self.attached@[ids[m].index as int]
                        &&& owner@[ids[m].index as int] == Some((count, m))
                    },
                forall|i: int|
                    0 <= i < count && #[trigger] self.attached@[i] && !before.attached@[i]
                        ==> exists|
                        m: int,
                    |
                        0 <= m < k && (#[trigger] ids[m]).index == i,
                forall|i: int|
                    0 <= i < count && (before.attached@[i] || !self.attached@[i])
                        ==> #[trigger] owner@[i] == before.owner(i),
            decreases (n - k) * 2 + (if clash { 0int } else { 1int }),
        {
            let c: NodeId = match node.child(k) {
                Some(c) => c,
                None => NodeId { index: 0 },
            };
            if c.index >= self.attached.len() || self.attached[c.index] {
                clash = true;
            } else {
                let ghost marked = self.attached@;
                self.attached.set(c.index, true);
                proof {
                    owner@ = owner@.update(c.index as int, Some((count, k as int)));
                    assert forall|i: int|
                        0 <= i < count && #[trigger] self.attached@[i] && !before.attached@[i]
                        implies exists|
                        m: int,
                    |
                        0 <= m < k + 1 && (#[trigger] ids[m]).index == i by {
                        if i == c.index {
                            assert(ids[k as int].index == i);
                        } else {
                            assert(marked[i]);
                        }
                    }
                }
                k += 1;
            }
        }
        if clash {
            let mut m: usize = 0;
            while m < k
                invariant
                    before.wf(),
                    ids == node.child_ids(),
                    count == before.count(),
                    m <= k < n == ids.len(),
                    self.nodes == before.nodes,
                    self.shape == before.shape,
                    self.attached@.len() == count,
                    owner@.len() == count,
                    forall|i: int| 0 <= i < count && before.attached@[i] ==> self.attached@[i],
                    forall|x: int|
                        0 <= x < k ==> {
                            &&& (#[trigger] ids[x]).index < count
                            &&& !before.attached@[ids[x].index as int]
                            &&& owner@[ids[x].index as int] == Some((count, x))
                        },
                    forall|i: int|
                        0 <= i < count && #[trigger] self.attached@[i] && !before.attached@[i]
                        ==> exists|
                            x: int,
                        |
                            m <= x < k && (#[trigger] ids[x]).index == i,
                decreases k - m,
            {
                let c: NodeId = match node.child(m) {
                    Some(c) => c,
                    None => NodeId { index: 0 },
                };
                let ghost marked = self.attached@;
                self.attached.set(c.index, false);
                proof {
                    assert forall|i: int|
                        0 <= i < count && #[trigger] self.attached@[i] && !before.attached@[i]
                        implies exists|
                        x: int,
                    |
                        m + 1 <= x < k && (#[trigger] ids[x]).index == i by {
                        assert(marked[i]);
                        let x = choose|x: int| m <= x < k && (#[trigger] ids[x]).index == i;
                        assert(x != m);
                    }
                }
                m += 1;
            }
            proof {
                assert(self.attached@ =~= before.attached@);
                Arena::lemma_wf_marks(&before, self);
                Arena::lemma_prefix_stable(&before, self);
                assert(!before.adoptable(ids)) by {
                    let bad = ids[k as int];
                    if bad.index < count && !before.attached@[bad.index as int] {
                        let x = choose|x: int| 0 <= x < k && (#[trigger] ids[x]).index == bad.index;
                        assert(ids[x] == ids[k as int]);
                    } else {
                        assert(!before.is_free(ids[k as int]));
                    }
                }
            }
            return None;
        }
        let id = NodeId { index: self.nodes.len() };
        let ghost marked = self.attached@;
        proof {
            self.shape@ = Shape {
                height: before.shape@.height.push(
                    if n == 0 {
                        0
                    } else {
                        before.shape@.ceiling
                    },
                ),
                owner: owner@.push(None),
                ceiling: before.shape@.ceiling + 1,
            };
        }
        self.nodes.push(node);
        self.attached.push(false);
        proof {
            assert forall|p: int, x: int| #[trigger] self.edge(p, x) implies {
                &&& 0 <= self.kid(p, x) < self.count()
                &&& self.height(self.kid(p, x)) < self.height(p)
                &&& self.owner(self.kid(p, x)) == Some((p, x))
            } by {
                if p < count {
                    assert(before.edge(p, x));
                    assert(before.owner(before.kid(p, x)) is Some);
                } else {
                    assert(ids[x].index < count);
                    assert(before.height(ids[x].index as int) < before.shape@.ceiling);
                }
            }
            assert forall|c: int|
                0 <= c < self.count() && (#[trigger] self.owner(c)) is Some implies {
                &&& self.edge(self.owner(c).unwrap().0, self.owner(c).unwrap().1)
                &&& self.kid(self.owner(c).unwrap().0, self.owner(c).unwrap().1) == c
                &&& self.attached@[c]
            } by {
                if before.attached@[c] || !marked[c] {
                    assert(owner@[c] == before.owner(c));
                    assert(before.edge(before.owner(c).unwrap().0, before.owner(c).unwrap().1));
                } else {
                    let x = choose|x: int| 0 <= x < k && (#[trigger] ids[x]).index == c;
                    assert(self.edge(count, x));
                }
            }
            assert forall|i: int| 0 <= i < self.count() implies #[trigger] self.height(i)
                < self.shape@.ceiling by {
                if i < count {
                    assert(before.height(i) < before.shape@.ceiling);
                }
            }
            assert(self.wf());
            Arena::lemma_prefix_stable(&before, self);
            self.lemma_tree_unfold(id);
            assert(self.tree(id).children =~= Seq::new(
                node.child_ids().len(),
                |x: int| before.tree(node.child_ids()[x]),
            ));
            assert forall|j: NodeId| before.contains(j) implies (#[trigger] self.is_free(j)
                <==> before.is_free(j) && !ids.contains(j)) by {
                if ids.contains(j) {
                    let x = choose|x: int| 0 <= x < ids.len() && ids[x] == j;
                    assert(marked[ids[x].index as int]);
                }
                if marked[j.index as int] && !before.attached@[j.index as int] {
                    let x = choose|x: int| 0 <= x < k && (#[trigger] ids[x]).index == j.index;
                    assert(ids[x] == j);
                }
            }
            assert(before.adoptable(ids)) by {
                assert forall|m1: int, m2: int| 0 <= m1 < m2 < ids.len() implies ids[m1]
                    != ids[m2] by {
                    assert(owner@[ids[m1].index as int] == Some((count, m1)));
                    assert(owner@[ids[m2].index as int] == Some((count, m2)));
                }
            }
        }
        Some(id)
    }

    /// Releases every node at once.
    pub fn clear(&mut self)
        ensures
            final(self).wf(),
            final(self).spec_len() == 0,
    {
        self.nodes.clear();
        self.attached.clear();
        self.shape = Ghost(Shape { height: Seq::empty(), owner: Seq::empty(), ceiling: 1 });
    }

    /// Puts a new numeric literal in the place of child `slot` of `parent`. The
    /// literal carries the span of the child it replaces, which stays in the
    /// arena without an owner.
    pub(crate) fn replace_with_literal(
        &mut self,
        parent: NodeId,
        slot: usize,
        value: u64,
        base: NumberBase,
    ) -> (id: NodeId)
        requires
            old(self).wf(),
            old(self).contains(parent),
            slot < old(self).node(parent).child_ids().len(),
        ensures
            final(self).wf(),
            final(self).extends(old(self)),
            id.index == old(self).spec_len(),
            final(self).spec_len() == old(self).spec_len() + 1,
            final(self).node(id) == (Node::NumericLiteral {
                span: old(self).node(
                    old(self).node(parent).child_ids()[slot as int],
                ).label().span(),
                value,
                base,
            }),
            final(self).tree(id) == Tree::literal_in_place_of(
                old(self).tree(old(self).node(parent).child_ids()[slot as int]),
                value,
                base,
            ),
            final(self).node(parent).label() == old(self).node(parent).label(),
            final(self).node(parent).child_ids() == old(self).node(parent).child_ids().update(
                slot as int,
                id,
            ),
            forall|j: NodeId|
                old(self).contains(j) && j != parent ==> #[trigger] final(self).node(j) == old(
                    self,
                ).node(j),
    {
        let ghost before = *self;
        let ghost p = parent.index as int;
        let ghost count = self.count();
        proof {
            assert(self.edge(p, slot as int));
        }
        let child: NodeId = match self.nodes[parent.index].child(slot) {
            Some(c) => c,
            None => parent,
        };
        let span = self.nodes[child.index].span();
        let id = NodeId { index: self.nodes.len() };
        self.nodes.push(Node::NumericLiteral { span, value, base });
        self.attached.push(true);
        self.nodes[parent.index].set_child(slot, id);
        proof {
            self.shape@ = Shape {
                height: before.shape@.height.push(0),
                owner: before.shape@.owner.update(child.index as int, None).push(
                    Some((p, slot as int)),
                ),
                ceiling: before.shape@.ceiling,
            };
            assert(before.height(p) < before.shape@.ceiling);
            assert forall|q: int, x: int| #[trigger] self.edge(q, x) implies {
                &&& 0 <= self.kid(q, x) < self.count()
                &&& self.height(self.kid(q, x)) < self.height(q)
                &&& self.owner(self.kid(q, x)) == Some((q, x))
            } by {
                assert(before.edge(q, x));
                if q == p && x == slot {
                } else {
                    assert(before.owner(before.kid(q, x)) == Some((q, x)));
                }
            }
            assert forall|c: int|
                0 <= c < self.count() && (#[trigger] self.owner(c)) is Some implies {
                &&& self.edge(self.owner(c).unwrap().0, self.owner(c).unwrap().1)
                &&& self.kid(self.owner(c).unwrap().0, self.owner(c).unwrap().1) == c
                &&& self.attached@[c]
            } by {
                if c < count {
                    assert(before.owner(c) is Some);
                    assert(before.edge(before.owner(c).unwrap().0, before.owner(c).unwrap().1));
                }
            }
            assert forall|i: int| 0 <= i < self.count() implies #[trigger] self.height(i)
                < self.shape@.ceiling by {
                if i < count {
                    assert(before.height(i) < before.shape@.ceiling);
                }
            }
            assert(self.wf());
            self.lemma_tree_unfold(id);
            assert(self.tree(id).children =~= Seq::<Tree>::empty());
            before.lemma_tree_unfold(child);
        }
        id
    }

    proof fn lemma_within_child(&self, p: int, k: int, j: int)
        requires
            self.wf(),
            self.edge(p, k),
            self.within_at(self.kid(p, k), j),
        ensures
            self.within_at(p, j),
    {
        assert(self.child_ok(p, k));
    }

    proof fn lemma_within_height(&self, r: int, j: int)
        requires
            self.wf(),
            0 <= r < self.count(),
            self.within_at(r, j),
        ensures
            0 <= j < self.count(),
            self.height(j) <= self.height(r),
        decreases self.height(r),
    {
        if j != r {
            let k = choose|k: int| #[trigger]
                self.child_ok(r, k) && self.within_at(self.kid(r, k), j);
            self.lemma_within_height(self.kid(r, k), j);
        }
    }

    proof fn lemma_within_owner(&self, r: int, j: int)
        requires
            self.wf(),
            0 <= r < self.count(),
            self.within_at(r, j),
            j != r,
        ensures
            self.owner(j) is Some,
            self.within_at(r, self.owner(j).unwrap().0),
        decreases self.height(r),
    {
        let k = choose|k: int| #[trigger]
            self.child_ok(r, k) && self.within_at(self.kid(r, k), j);
        let c = self.kid(r, k);
        assert(self.edge(r, k));
        if j != c {
            self.lemma_within_owner(c, j);
            self.lemma_within_child(r, k, self.owner(j).unwrap().0);
        }
    }

    proof fn lemma_within_linear(&self, a: int, b: int, j: int)
        requires
            self.wf(),
            0 <= a < self.count(),
            0 <= b < self.count(),
            self.within_at(a, j),
            self.within_at(b, j),
        ensures
            self.within_at(a, b) || self.within_at(b, a),
        decreases self.shape@.ceiling - self.height(j),
    {
        self.lemma_within_height(a, j);
        if j != a && j != b {
            self.lemma_within_owner(a, j);
            self.lemma_within_owner(b, j);
            let q = self.owner(j).unwrap().0;
            let k = self.owner(j).unwrap().1;
            assert(self.edge(q, k));
            self.lemma_within_linear(a, b, q);
        }
    }

    /// The subtrees below two different child positions of one node share no slot.
    proof fn lemma_siblings_disjoint(&self, p: int, k1: int, k2: int, j: int)
        requires
            self.wf(),
            self.edge(p, k1),
            self.edge(p, k2),
            k1 != k2,
            self.within_at(self.kid(p, k1), j),
        ensures
            !self.within_at(self.kid(p, k2), j),
    {
        let c1 = self.kid(p, k1);
        let c2 = self.kid(p, k2);
        if self.within_at(c2, j) {
            self.lemma_within_linear(c1, c2, j);
            if self.within_at(c1, c2) {
                self.lemma_within_owner(c1, c2);
                self.lemma_within_height(c1, p);
            } else {
                self.lemma_within_owner(c2, c1);
                self.lemma_within_height(c2, p);
            }
        }
    }

    /// A node lies in none of its children's subtrees.
    proof fn lemma_parent_outside(&self, p: int, k: int)
        requires
            self.wf(),
            self.edge(p, k),
        ensures
            !self.within_at(self.kid(p, k), p),
    {
        if self.within_at(self.kid(p, k), p) {
            self.lemma_within_height(self.kid(p, k), p);
        }
    }

    /// A subtree is the same in two arenas that agree on its slots.
    proof fn lemma_stable(a: &Arena, b: &Arena, i: int)
        requires
            a.wf(),
            b.wf(),
            0 <= i < a.count(),
            forall|j: int|
                0 <= j < a.count() && #[trigger] a.within_at(i, j) ==> j < b.count() && b.nodes@[j]
                    == a.nodes@[j] && b.height(j) == a.height(j),
        ensures
            b.tree_at(i) == a.tree_at(i),
            forall|j: int| b.within_at(i, j) == a.within_at(i, j),
        decreases a.height(i),
    {
        assert(a.within_at(i, i));
        assert forall|k: int| 0 <= k < a.arity(i) implies b.child_ok(i, k) && a.child_ok(i, k)
            && b.tree_at(b.kid(i, k)) == a.tree_at(a.kid(i, k)) && (forall|j: int|
            b.within_at(a.kid(i, k), j) == a.within_at(a.kid(i, k), j)) by {
            assert(a.edge(i, k));
            let c = a.kid(i, k);
            assert(a.within_at(c, c));
            a.lemma_within_child(i, k, c);
            assert forall|j: int| 0 <= j < a.count() && #[trigger] a.within_at(c, j) implies j
                < b.count() && b.nodes@[j] == a.nodes@[j] && b.height(j) == a.height(j) by {
                a.lemma_within_child(i, k, j);
            }
            Arena::lemma_stable(a, b, c);
        }
        assert(b.tree_at(i).children =~= a.tree_at(i).children);
        assert forall|j: int| b.within_at(i, j) == a.within_at(i, j) by {
            if a.within_at(i, j) && j != i {
                let k = choose|k: int| #[trigger]
                    a.child_ok(i, k) && a.within_at(a.kid(i, k), j);
                assert(b.child_ok(i, k));
            }
            if b.within_at(i, j) && j != i {
                let k = choose|k: int| #[trigger]
                    b.child_ok(i, k) && b.within_at(b.kid(i, k), j);
                assert(a.child_ok(i, k));
            }
        }
    }

    /// Marking more slots as attached keeps the forest well formed.
    proof fn lemma_wf_marks(a: &Arena, b: &Arena)
        requires
            a.wf(),
            b.nodes@ == a.nodes@,
            b.shape@ == a.shape@,
            b.attached@.len() == a.attached@.len(),
            forall|c: int| 0 <= c < a.count() && a.attached@[c] ==> b.attached@[c],
        ensures
            b.wf(),
    {
        assert forall|p: int, k: int| #[trigger] b.edge(p, k) implies {
            &&& 0 <= b.kid(p, k) < b.count()
            &&& b.height(b.kid(p, k)) < b.height(p)
            &&& b.owner(b.kid(p, k)) == Some((p, k))
        } by {
            assert(a.edge(p, k));
        }
        assert forall|c: int| 0 <= c < b.count() && (#[trigger] b.owner(c)) is Some implies {
            &&& b.edge(b.owner(c).unwrap().0, b.owner(c).unwrap().1)
            &&& b.kid(b.owner(c).unwrap().0, b.owner(c).unwrap().1) == c
            &&& b.attached@[c]
        } by {
            assert(a.owner(c) is Some);
        }
        assert forall|i: int| 0 <= i < b.count() implies #[trigger] b.height(i)
            < b.shape@.ceiling by {
            assert(a.height(i) < a.shape@.ceiling);
        }
    }

    /// Slots that two arenas agree on carry the same subtrees in both.
    proof fn lemma_prefix_stable(a: &Arena, b: &Arena)
        requires
            a.wf(),
            b.wf(),
            a.count() <= b.count(),
            forall|j: int|
                0 <= j < a.count() ==> #[trigger] b.nodes@[j] == a.nodes@[j] && b.height(j)
                    == a.height(j),
        ensures
            forall|j: NodeId|
                a.contains(j) ==> #[trigger] b.tree(j) == a.tree(j) && forall|x: NodeId|
                    b.within(j, x) == a.within(j, x),
    {
        assert forall|j: NodeId| a.contains(j) implies #[trigger] b.tree(j) == a.tree(j)
            && forall|x: NodeId| b.within(j, x) == a.within(j, x) by {
            Arena::lemma_stable(a, b, j.index as int);
        }
    }

    /// A tree is its node's label over the trees of the node's children.
    pub proof fn lemma_tree_unfold(&self, id: NodeId)
        requires
            self.wf(),
            self.contains(id),
        ensures
            forall|k: int|
                0 <= k < self.node(id).child_ids().len() ==> self.contains(
                    #[trigger] self.node(id).child_ids()[k],
                ),
            self.tree(id) == (Tree {
                label: self.node(id).label(),
                children: Seq::new(
                    self.node(id).child_ids().len(),
                    |k: int| self.tree(self.node(id).child_ids()[k]),
                ),
            }),
    {
        let i = id.index as int;
        assert forall|k: int| 0 <= k < self.arity(i) implies self.child_ok(i, k) by {
            assert(self.edge(i, k));
        }
        assert forall|k: int| 0 <= k < self.node(id).child_ids().len() implies self.contains(
            #[trigger] self.node(id).child_ids()[k],
        ) by {
            assert(self.child_ok(i, k));
        }
        assert(self.tree_at(i).children =~= Seq::new(
            self.node(id).child_ids().len(),
            |k: int| self.tree(self.node(id).child_ids()[k]),
        ));
    }

    /// Extension is transitive.
    pub proof fn lemma_extends_twice(&self, first: &Arena, second: &Arena)
        requires
            second.extends(first),
            self.extends(second),
        ensures
            self.extends(first),
    {
        assert forall|j: NodeId| first.contains(j) implies {
            &&& #[trigger] self.contains(j)
            &&& self.rank(j) == first.rank(j)
            &&& self.is_free(j) == first.is_free(j)
            &&& self.node(j).label() == first.node(j).label()
        } by {
            assert(second.contains(j));
            assert(self.contains(j));
        }
        assert forall|j: NodeId| #[trigger] self.contains(j) && !first.contains(j) implies {
            &&& !self.is_free(j)
            &&& self.node(j).label() is NumericLiteral
        } by {
            if second.contains(j) {
                assert(!second.is_free(j));
                assert(self.is_free(j) == second.is_free(j));
                assert(self.node(j).label() == second.node(j).label());
            }
        }
    }

    /// A child has a smaller rank than its parent and lies in its parent's
    /// subtree, together with everything below the child.
    pub proof fn lemma_child(&self, parent: NodeId, k: int)
        requires
            self.wf(),
            self.contains(parent),
            0 <= k < self.node(parent).child_ids().len(),
        ensures
            self.contains(self.node(parent).child_ids()[k]),
            self.rank(self.node(parent).child_ids()[k]) < self.rank(parent),
            !self.within(self.node(parent).child_ids()[k], parent),
            forall|j: NodeId|
                self.within(self.node(parent).child_ids()[k], j) ==> #[trigger] self.within(
                    parent,
                    j,
                ),
    {
        let p = parent.index as int;
        assert(self.edge(p, k));
        self.lemma_parent_outside(p, k);
        assert forall|j: NodeId|
            self.within(self.node(parent).child_ids()[k], j) implies #[trigger] self.within(
            parent,
            j,
        ) by {
            self.lemma_within_child(p, k, j.index as int);
        }
    }

    /// Every slot lies in its own subtree, and a subtree holds slots of the arena only.
    pub proof fn lemma_within(&self, root: NodeId, j: NodeId)
        requires
            self.wf(),
            self.contains(root),
        ensures
            self.within(root, root),
            self.within(root, j) ==> self.contains(j),
    {
        if self.within(root, j) {
            self.lemma_within_height(root.index as int, j.index as int);
        }
    }

    /// The subtrees below two different child positions of one node share no slot.
    pub proof fn lemma_siblings(&self, parent: NodeId, k1: int, k2: int)
        requires
            self.wf(),
            self.contains(parent),
            0 <= k1 < self.node(parent).child_ids().len(),
            0 <= k2 < self.node(parent).child_ids().len(),
            k1 != k2,
        ensures
            forall|j: NodeId|
                #![trigger self.within(self.node(parent).child_ids()[k1], j)]
                #![trigger self.within(self.node(parent).child_ids()[k2], j)]
                !(self.within(self.node(parent).child_ids()[k1], j) && self.within(
                    self.node(parent).child_ids()[k2],
                    j,
                )),
    {
        let p = parent.index as int;
        assert forall|j: NodeId|
            !(self.within(self.node(parent).child_ids()[k1], j) && self.within(
                self.node(parent).child_ids()[k2],
                j,
            )) by {
            if self.within(self.node(parent).child_ids()[k1], j) {
                self.lemma_siblings_disjoint(p, k1, k2, j.index as int);
            }
        }
    }

    /// A subtree whose slots hold the same nodes, with the same ranks, in two
    /// arenas is the same tree in both.
    pub proof fn lemma_frame(&self, after: &Arena, root: NodeId)
        requires
            self.wf(),
            after.wf(),
            self.contains(root),
            forall|j: NodeId|
                self.contains(j) && #[trigger] self.within(root, j) ==> after.contains(j)
                    && after.node(j) == self.node(j) && after.rank(j) == self.rank(j),
        ensures
            after.tree(root) == self.tree(root),
            forall|j: NodeId| after.within(root, j) == self.within(root, j),
    {
        assert forall|j: int|
            0 <= j < self.count() && #[trigger] self.within_at(root.index as int, j) implies j
            < after.count() && after.nodes@[j] == self.nodes@[j] && after.height(j) == self.height(
            j,
        ) by {
            assert(self.nodes.len() == self.nodes@.len());
            let id = NodeId { index: j as usize };
            assert(id.index as int == j);
            assert(self.within(root, id));
        }
        Arena::lemma_stable(self, after, root.index as int);
    }
}

} // verus!
