//! The nodes of the bounding-volume tree, and the steps that change one tree
//! into another: attach a leaf, detach a leaf, give a leaf a new box.
//!
//! Every step walks one path from the root and recomputes the boxes of the
//! branches on that path on the way back, so a well-formed tree stays
//! well-formed: each branch holds exactly the hull of its two children.

use vstd::prelude::*;
use crate::geometry::Aabb;

verus! {

/// A node of the tree: a leaf that stands for one slot, or a branch over two
/// subtrees.
///
/// A branch also carries its height: one more than the greater height of
/// its children, a leaf counting as zero, as far as the number type reaches.
/// The height steers where a new leaf goes.
pub enum Node {
    Leaf { slot: usize, aabb: Aabb },
    Branch { aabb: Aabb, height: u32, left: Box<Node>, right: Box<Node> },
}

impl Node {
    /// The box stored at the node.
    pub open spec fn bounds(self) -> Aabb {
        match self {
            Node::Leaf { aabb, .. } => aabb,
            Node::Branch { aabb, .. } => aabb,
        }
    }

    /// The height stored at the node; zero for a leaf.
    pub open spec fn level(self) -> u32 {
        match self {
            Node::Leaf { .. } => 0,
            Node::Branch { height, .. } => height,
        }
    }

    /// The height of a branch over subtrees of heights `a` and `b`.
    pub open spec fn above(a: u32, b: u32) -> u32 {
        let below = if a >= b {
            a
        } else {
            b
        };
        if below < u32::MAX {
            (below + 1) as u32
        } else {
            below
        }
    }

    /// The leaves below the node: each slot with its stored box.
    pub open spec fn leaves(self) -> Map<usize, Aabb>
        decreases self,
    {
        match self {
            Node::Leaf { slot, aabb } => Map::empty().insert(slot, aabb),
            Node::Branch { left, right, .. } => left.leaves().union_prefer_right(right.leaves()),
        }
    }

    /// Leaf boxes are valid, no slot occurs twice, and every branch holds the
    /// hull of the boxes of its two children and the height above them.
    pub open spec fn wf(self) -> bool
        decreases self,
    {
        match self {
            Node::Leaf { aabb, .. } => aabb.is_valid(),
            Node::Branch { aabb, height, left, right } => {
                &&& left.wf()
                &&& right.wf()
                &&& left.leaves().dom().disjoint(right.leaves().dom())
                &&& aabb == left.bounds().hull(right.bounds())
                &&& height == Node::above(left.level(), right.level())
            },
        }
    }

    /// The number of nodes.
    pub open spec fn size(self) -> nat
        decreases self,
    {
        match self {
            Node::Leaf { .. } => 1,
            Node::Branch { left, right, .. } => 1 + left.size() + right.size(),
        }
    }

    /// `other` is this node or a node below it.
    pub open spec fn has_node(self, other: Node) -> bool
        decreases self,
    {
        self == other || match self {
            Node::Leaf { .. } => false,
            Node::Branch { left, right, .. } => left.has_node(other) || right.has_node(other),
        }
    }

    /// The two trees branch alike and hold the same slots in the same places;
    /// only boxes may differ.
    pub open spec fn same_shape(self, other: Node) -> bool
        decreases self,
    {
        match (self, other) {
            (Node::Leaf { slot: a, .. }, Node::Leaf { slot: b, .. }) => a == b,
            (
                Node::Branch { left: l1, right: r1, .. },
                Node::Branch { left: l2, right: r2, .. },
            ) => l1.same_shape(*l2) && r1.same_shape(*r2),
            _ => false,
        }
    }

    /// The slots that a search for `query` reports, in the order in which it
    /// reports them: a subtree is entered only if its box overlaps the query.
    pub open spec fn hits(self, query: Aabb) -> Seq<usize>
        decreases self,
    {
        match self {
            Node::Leaf { slot, aabb } => if aabb.overlaps(query) {
                seq![slot]
            } else {
                Seq::empty()
            },
            Node::Branch { aabb, left, right, .. } => if aabb.overlaps(query) {
                left.hits(query) + right.hits(query)
            } else {
                Seq::empty()
            },
        }
    }

    /// The box of a well-formed node is valid and covers the box of every leaf
    /// below it.
    pub proof fn bounds_cover_leaves(self)
        requires
            self.wf(),
        ensures
            self.bounds().is_valid(),
            forall|s: usize| #[trigger]
                self.leaves().contains_key(s) ==> self.leaves()[s].is_valid()
                    && self.bounds().covers(self.leaves()[s]),
        decreases self,
    {
        match self {
            Node::Leaf { .. } => {},
            Node::Branch { left, right, .. } => {
                left.bounds_cover_leaves();
                right.bounds_cover_leaves();
            },
        }
    }

    /// A node of a well-formed tree is well-formed, and its leaves are leaves
    /// of the whole tree, with the same boxes.
    pub proof fn node_of_tree(self, other: Node)
        requires
            self.wf(),
            self.has_node(other),
        ensures
            other.wf(),
            other.leaves().submap_of(self.leaves()),
        decreases self,
    {
        if self != other {
            match self {
                Node::Leaf { .. } => {},
                Node::Branch { left, right, .. } => {
                    if left.has_node(other) {
                        left.node_of_tree(other);
                    } else {
                        right.node_of_tree(other);
                    }
                },
            }
        }
    }

    /// A search reports no slot twice, and reports a slot exactly when it is
    /// a leaf of the tree whose box overlaps the query.
    pub proof fn hits_are_overlapping_leaves(self, query: Aabb)
        requires
            self.wf(),
        ensures
            self.hits(query).no_duplicates(),
            forall|s: usize|
                self.hits(query).contains(s) <==> self.leaves().contains_key(s)
                    && self.leaves()[s].overlaps(query),
        decreases self,
    {
        self.bounds_cover_leaves();
        match self {
            Node::Leaf { slot, aabb } => {
                if aabb.overlaps(query) {
                    assert(seq![slot][0] == slot);
                }
            },
            Node::Branch { aabb, left, right, .. } => {
                left.hits_are_overlapping_leaves(query);
                right.hits_are_overlapping_leaves(query);
                if aabb.overlaps(query) {
                    let l = left.hits(query);
                    let r = right.hits(query);
                    assert forall|i: int, j: int| 0 <= i < l.len() && 0 <= j < r.len() implies l[i]
                        != r[j] by {
                        assert(l.contains(l[i]));
                        assert(r.contains(r[j]));
                    }
                    vstd::seq_lib::lemma_no_dup_in_concat(l, r);
                    assert forall|s: usize|
                        (l + r).contains(s) <==> self.leaves().contains_key(s)
                            && self.leaves()[s].overlaps(query) by {
                        if (l + r).contains(s) {
                            let i = choose|i: int| 0 <= i < (l + r).len() && (l + r)[i] == s;
                            if i < l.len() {
                                assert(l.contains(l[i]));
                            } else {
                                assert(r.contains(r[i - l.len()]));
                            }
                        }
                        if self.leaves().contains_key(s) && self.leaves()[s].overlaps(query) {
                            if right.leaves().contains_key(s) {
                                assert(r.contains(s));
                                let j = choose|j: int| 0 <= j < r.len() && r[j] == s;
                                assert((l + r)[l.len() + j] == s);
                            } else {
                                assert(l.contains(s));
                                let j = choose|j: int| 0 <= j < l.len() && l[j] == s;
                                assert((l + r)[j] == s);
                            }
                        }
                    }
                }
            },
        }
    }
    /// Having the same shape carries over from tree to tree.
    pub proof fn same_shape_transitive(self, b: Node, c: Node)
        requires
            self.same_shape(b),
            b.same_shape(c),
        ensures
            self.same_shape(c),
        decreases self,
    {
        match (self, b, c) {
            (
                Node::Branch { left: l1, right: r1, .. },
                Node::Branch { left: l2, right: r2, .. },
                Node::Branch { left: l3, right: r3, .. },
            ) => {
                l1.same_shape_transitive(*l2, *l3);
                r1.same_shape_transitive(*r2, *r3);
            },
            _ => {},
        }
    }

    /// Every tree has its own shape.
    pub proof fn same_shape_reflexive(self)
        ensures
            self.same_shape(self),
        decreases self,
    {
        match self {
            Node::Leaf { .. } => {},
            Node::Branch { left, right, .. } => {
                left.same_shape_reflexive();
                right.same_shape_reflexive();
            },
        }
    }
}

/// The box stored at a node.
pub fn bounds_of(node: &Node) -> (b: Aabb)
    ensures
        b == node.bounds(),
{
    match node {
        Node::Leaf { aabb, .. } => *aabb,
        Node::Branch { aabb, .. } => *aabb,
    }
}

/// The height stored at a node; zero for a leaf.
pub fn height_of(node: &Node) -> (h: u32)
    ensures
        h == node.level(),
{
    match node {
        Node::Leaf { .. } => 0,
        Node::Branch { height, .. } => *height,
    }
}

/// The branch over two subtrees: it holds the hull of their boxes.
pub fn join(left: Box<Node>, right: Box<Node>) -> (r: Box<Node>)
    requires
        left.wf(),
        right.wf(),
        left.leaves().dom().disjoint(right.leaves().dom()),
    ensures
        r.wf(),
        r.leaves() == left.leaves().union_prefer_right(right.leaves()),
        *r == (Node::Branch {
            aabb: left.bounds().hull(right.bounds()),
            height: Node::above(left.level(), right.level()),
            left,
            right,
        }),
{
    let below: u32 = if height_of(&left) >= height_of(&right) {
        height_of(&left)
    } else {
        height_of(&right)
    };
    let height: u32 = if below < u32::MAX {
        below + 1
    } else {
        below
    };
    Box::new(
        Node::Branch { aabb: bounds_of(&left).merged(&bounds_of(&right)), height, left, right },
    )
}

/// How much the half perimeter of `held` grows when it has to cover `added` too.
fn growth(held: &Aabb, added: &Aabb) -> (g: u64)
    ensures
        g == held.hull(*added).girth() - held.girth(),
{
    held.merged(added).half_perimeter() - held.half_perimeter()
}

/// Attaches a new leaf. At each branch the leaf goes to the lower of the two
/// subtrees, so that the tree stays shallow; where they are equally high, to
/// the one whose box has to grow less to take it in. The tree grows by one
/// level at most, and not at all while one side of its root is lower than
/// the other.
pub fn insert_leaf(node: Box<Node>, slot: usize, aabb: Aabb) -> (r: Box<Node>)
    requires
        node.wf(),
        !node.leaves().contains_key(slot),
        aabb.is_valid(),
    ensures
        r.wf(),
        r.leaves() == node.leaves().insert(slot, aabb),
        r.level() == node.level() || r.level() == node.level() + 1,
        *node matches Node::Branch { left, right, .. } && left.level() != right.level()
            ==> r.level() == node.level(),
    decreases node,
{
    match *node {
        Node::Leaf { slot: held_slot, aabb: held } => {
            let old_leaf = Box::new(Node::Leaf { slot: held_slot, aabb: held });
            let new_leaf = Box::new(Node::Leaf { slot, aabb });
            let r = join(old_leaf, new_leaf);
            assert(r.leaves() =~= node.leaves().insert(slot, aabb));
            r
        },
        Node::Branch { aabb: _, height: _, left, right } => {
            let left_height: u32 = height_of(&left);
            let right_height: u32 = height_of(&right);
            let to_left = if left_height != right_height {
                left_height < right_height
            } else {
                growth(&bounds_of(&left), &aabb) <= growth(&bounds_of(&right), &aabb)
            };
            if to_left {
                let grown = insert_leaf(left, slot, aabb);
                let r = join(grown, right);
                assert(r.leaves() =~= node.leaves().insert(slot, aabb));
                r
            } else {
                let grown = insert_leaf(right, slot, aabb);
                let r = join(left, grown);
                assert(r.leaves() =~= node.leaves().insert(slot, aabb));
                r
            }
        },
    }
}

/// Detaches the leaf of `slot`, if the tree has one. `hint` is the box that
/// the leaf holds: a subtree whose box does not cover it is not entered.
/// Returns what is left of the tree, and whether a leaf was detached.
pub fn detach_leaf(node: Box<Node>, slot: usize, hint: &Aabb) -> (r: (Option<Box<Node>>, bool))
    requires
        node.wf(),
        node.leaves().contains_key(slot) ==> node.leaves()[slot] == *hint,
    ensures
        r.1 == node.leaves().contains_key(slot),
        !r.1 ==> r.0 == Some(node),
        match r.0 {
            Some(rest) => rest.wf() && rest.leaves() == node.leaves().remove(slot),
            None => node.leaves().remove(slot) == (Map::<usize, Aabb>::empty()),
        },
    decreases node,
{
    proof {
        node.bounds_cover_leaves();
    }
    if !bounds_of(&node).contains(hint) {
        assert(node.leaves().remove(slot) =~= node.leaves());
        return (Some(node), false);
    }
    match *node {
        Node::Leaf { slot: held_slot, aabb: held } => {
            if held_slot == slot {
                assert(node.leaves().remove(slot) =~= Map::<usize, Aabb>::empty());
                (None, true)
            } else {
                assert(node.leaves().remove(slot) =~= node.leaves());
                (Some(Box::new(Node::Leaf { slot: held_slot, aabb: held })), false)
            }
        },
        Node::Branch { aabb: held, height, left, right } => {
            let ghost left_leaves = left.leaves();
            let ghost right_leaves = right.leaves();
            let (left_rest, in_left) = detach_leaf(left, slot, hint);
            if in_left {
                match left_rest {
                    None => {
                        assert forall|k: usize| left_leaves.contains_key(k) implies k == slot by {
                            if k != slot {
                                assert(left_leaves.remove(slot).contains_key(k));
                            }
                        }
                        assert(right.leaves() =~= node.leaves().remove(slot));
                        (Some(right), true)
                    },
                    Some(rest) => {
                        let r = join(rest, right);
                        assert(r.leaves() =~= node.leaves().remove(slot));
                        (Some(r), true)
                    },
                }
            } else {
                let kept = left_rest.unwrap();
                let (right_rest, in_right) = detach_leaf(right, slot, hint);
                match right_rest {
                    None => {
                        assert forall|k: usize| right_leaves.contains_key(k) implies k == slot by {
                            if k != slot {
                                assert(right_leaves.remove(slot).contains_key(k));
                            }
                        }
                        assert(kept.leaves() =~= node.leaves().remove(slot));
                        (Some(kept), true)
                    },
                    Some(rest) => {
                        if in_right {
                            let r = join(kept, rest);
                            assert(r.leaves() =~= node.leaves().remove(slot));
                            (Some(r), true)
                        } else {
                            assert(node.leaves().remove(slot) =~= node.leaves());
                            (
                                Some(
                                    Box::new(
                                        Node::Branch { aabb: held, height, left: kept, right: rest },
                                    ),
                                ),
                                false,
                            )
                        }
                    },
                }
            }
        },
    }
}

/// Gives the leaf of `slot` the box `aabb`, if the tree has such a leaf, and
/// recomputes the branches above it. `hint` is the box that the leaf holds:
/// a subtree whose box does not cover it is not entered. The tree keeps its
/// shape. Returns the tree and whether it has such a leaf.
pub fn update_leaf(node: Box<Node>, slot: usize, hint: &Aabb, aabb: Aabb) -> (r: (Box<Node>, bool))
    requires
        node.wf(),
        node.leaves().contains_key(slot) ==> node.leaves()[slot] == *hint,
        aabb.is_valid(),
    ensures
        r.1 == node.leaves().contains_key(slot),
        r.0.wf(),
        node.same_shape(*r.0),
        r.1 ==> r.0.leaves() == node.leaves().insert(slot, aabb),
        !r.1 ==> r.0 == node,
    decreases node,
{
    proof {
        node.bounds_cover_leaves();
        node.same_shape_reflexive();
    }
    if !bounds_of(&node).contains(hint) {
        return (node, false);
    }
    match *node {
        Node::Leaf { slot: held_slot, aabb: held } => {
            if held_slot == slot {
                let r = Box::new(Node::Leaf { slot, aabb });
                assert(r.leaves() =~= node.leaves().insert(slot, aabb));
                (r, true)
            } else {
                (Box::new(Node::Leaf { slot: held_slot, aabb: held }), false)
            }
        },
        Node::Branch { aabb: held, height, left, right } => {
            let (new_left, in_left) = update_leaf(left, slot, hint, aabb);
            if in_left {
                proof {
                    right.same_shape_reflexive();
                    assert(new_left.leaves().dom() =~= left.leaves().dom());
                }
                let r = join(new_left, right);
                assert(r.leaves() =~= node.leaves().insert(slot, aabb));
                (r, true)
            } else {
                let (new_right, in_right) = update_leaf(right, slot, hint, aabb);
                if in_right {
                    assert(new_right.leaves().dom() =~= right.leaves().dom());
                    let r = join(new_left, new_right);
                    assert(r.leaves() =~= node.leaves().insert(slot, aabb));
                    (r, true)
                } else {
                    (
                        Box::new(
                            Node::Branch { aabb: held, height, left: new_left, right: new_right },
                        ),
                        false,
                    )
                }
            }
        },
    }
}

/// The hits that the subtrees on a search stack still owe, the top of the
/// stack first.
pub open spec fn pending(stack: Seq<&Node>, query: Aabb) -> Seq<usize>
    decreases stack.len(),
{
    if stack.len() == 0 {
        Seq::empty()
    } else {
        stack.last().hits(query) + pending(stack.drop_last(), query)
    }
}

/// The number of nodes in the subtrees on a search stack.
pub open spec fn weight(stack: Seq<&Node>) -> nat
    decreases stack.len(),
{
    if stack.len() == 0 {
        0
    } else {
        stack.last().size() + weight(stack.drop_last())
    }
}

/// Pushing a subtree on a search stack puts its hits first and adds its nodes.
pub proof fn pending_after_push(stack: Seq<&Node>, node: &Node, query: Aabb)
    ensures
        pending(stack.push(node), query) == node.hits(query) + pending(stack, query),
        weight(stack.push(node)) == node.size() + weight(stack),
{
    assert(stack.push(node).drop_last() =~= stack);
    assert(stack.push(node).last() == node);
}

/// Appends to `out` the slots of the leaves whose box overlaps `query`. The
/// walk is depth-first over a stack and enters a subtree only if its box
/// overlaps the query.
pub fn search(root: &Node, query: &Aabb, out: &mut Vec<usize>)
    ensures
        final(out)@ == old(out)@ + root.hits(*query),
{
    let mut stack: Vec<&Node> = Vec::new();
    stack.push(root);
    proof {
        pending_after_push(Seq::<&Node>::empty(), root, *query);
        assert(stack@ =~= Seq::<&Node>::empty().push(root));
        assert(pending(stack@, *query) =~= root.hits(*query));
    }
    while stack.len() > 0
        invariant
            out@ + pending(stack@, *query) == old(out)@ + root.hits(*query),
        decreases weight(stack@),
    {
        let ghost before = stack@;
        let ghost found = out@;
        let node = stack.pop().unwrap();
        let ghost rest = stack@;
        proof {
            assert(before =~= rest.push(node));
            pending_after_push(rest, node, *query);
        }
        match node {
            Node::Leaf { slot, aabb } => {
                if aabb.intersects(query) {
                    out.push(*slot);
                }
                assert(out@ + pending(rest, *query) =~= found + pending(before, *query));
            },
            Node::Branch { aabb, left, right, .. } => {
                if aabb.intersects(query) {
                    stack.push(&**right);
                    stack.push(&**left);
                    proof {
                        pending_after_push(rest, &**right, *query);
                        pending_after_push(rest.push(&**right), &**left, *query);
                        assert(stack@ =~= rest.push(&**right).push(&**left));
                        assert(pending(stack@, *query) =~= pending(before, *query));
                    }
                }
            },
        }
    }
}

} // verus!
