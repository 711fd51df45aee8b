//! The levels above the leaves: nodes of up to four children, which are
//! either still being filled at their right edge or complete and frozen.
use crate::error::Error;
use crate::hash;
use crate::hash::{empty_digest, node_digest, GetHash, Padding, MAX_HEIGHT};
use crate::leaf::Leaf;
use crate::merkle::{
    children_of, digits, extend, lemma_multiples, lemma_part_index, lemma_parts_determine,
    lemma_parts_push, lemma_parts_update, lemma_path_of_single, lemma_pow4_positive,
    lemma_pow4_step, lemma_root_of_empty, lemma_root_of_single, part, path_of, path_view, pow4,
    root_of, triple_view, width,
};
use vstd::prelude::*;

verus! {

/// A subtree of a tier. At height zero it is a leaf. Above that it is a node
/// with up to four children, all of them one level lower: an active node may
/// still grow at its right edge, a complete node keeps its hash and never
/// changes again, but for the forgetting of items below it.
#[derive(Debug)]
pub enum Node<Item> {
    Leaf(Leaf<Item>),
    Active { children: Vec<Node<Item>> },
    Complete { children: Vec<Node<Item>>, hash: hash::Hash },
}

/// The hashes of a sequence of leaves.
pub open spec fn digests_of<Item: GetHash>(leaves: Seq<Leaf<Item>>) -> Seq<Seq<u8>> {
    Seq::new(leaves.len(), |i: int| leaves[i].digest())
}

impl<Item: GetHash> Node<Item> {
    /// The children of the node, from the left; a leaf has none.
    pub open spec fn children(self) -> Seq<Node<Item>> {
        match self {
            Node::Leaf(_) => Seq::empty(),
            Node::Active { children } => children@,
            Node::Complete { children, .. } => children@,
        }
    }

    /// Whether the node is frozen: a leaf or a complete node.
    pub open spec fn is_complete(self) -> bool {
        !(self is Active)
    }

    /// The leaves below the node, from the left.
    pub open spec fn leaves(self, height: nat) -> Seq<Leaf<Item>>
        decreases height, 0nat,
    {
        match self {
            Node::Leaf(leaf) => seq![leaf],
            _ => if height == 0 {
                Seq::empty()
            } else {
                Self::concat(self.children(), (height - 1) as nat)
            },
        }
    }

    /// The leaves below a row of nodes of one height, from the left.
    pub open spec fn concat(children: Seq<Node<Item>>, height: nat) -> Seq<Leaf<Item>>
        decreases height, children.len(),
    {
        if children.len() == 0 {
            Seq::empty()
        } else {
            Self::concat(children.drop_last(), height) + children.last().leaves(height)
        }
    }

    /// The leaves below the `i`-th of a row of nodes, or none where the row
    /// has no such node.
    pub open spec fn leaves_at(children: Seq<Node<Item>>, i: int, height: nat) -> Seq<Leaf<Item>> {
        if 0 <= i < children.len() {
            children[i].leaves(height)
        } else {
            Seq::empty()
        }
    }

    /// The hashes of the leaves below the node, from the left.
    pub open spec fn digests(self, height: nat) -> Seq<Seq<u8>> {
        digests_of(self.leaves(height))
    }

    /// The hash of the node, computed from its leaves' hashes through its
    /// children, with the hash of an empty subtree wherever a child is absent.
    pub open spec fn digest(self, base: nat, height: nat) -> Seq<u8>
        decreases height, 0nat,
    {
        match self {
            Node::Leaf(leaf) => leaf.digest(),
            _ => if height == 0 {
                empty_digest(base)
            } else {
                let below = (height - 1) as nat;
                node_digest(
                    base + height,
                    Self::slot(self.children(), 0, base, below),
                    Self::slot(self.children(), 1, base, below),
                    Self::slot(self.children(), 2, base, below),
                    Self::slot(self.children(), 3, base, below),
                )
            },
        }
    }

    /// The hash of the `i`-th of a row of nodes, or that of an empty subtree
    /// where the row has no such node.
    pub open spec fn slot(children: Seq<Node<Item>>, i: int, base: nat, height: nat) -> Seq<u8>
        decreases height, 1nat,
    {
        if 0 <= i < children.len() {
            children[i].digest(base, height)
        } else {
            empty_digest(base + height)
        }
    }

    /// A node of the given height, over leaves at height `base`, is well
    /// formed when: it has at most four children, each well formed; every
    /// child but the last is complete and full; an active child has room
    /// left; and a complete node has only complete children and keeps the
    /// hash that its children give.
    pub open spec fn wf(self, base: nat, height: nat) -> bool
        decreases height,
    {
        match self {
            Node::Leaf(leaf) => height == 0 && leaf.wf(),
            _ => {
                let below = (height - 1) as nat;
                let children = self.children();
                &&& height > 0
                &&& children.len() <= 4
                &&& forall|i: int|
                    0 <= i < children.len() ==> (#[trigger] children[i]).wf(base, below)
                &&& forall|i: int|
                    0 <= i < children.len() - 1 ==> (#[trigger] children[i]).is_complete()
                        && children[i].leaves(below).len() == pow4(below)
                &&& forall|i: int|
                    0 <= i < children.len() && (#[trigger] children[i]) is Active
                        ==> children[i].leaves(below).len() < pow4(below)
                &&& self matches Node::Complete { hash, .. } ==> {
                    &&& hash@ == self.digest(base, height)
                    &&& forall|i: int|
                        0 <= i < children.len() ==> (#[trigger] children[i]).is_complete()
                }
            },
        }
    }

    /// Whether the right edge of the node was sealed before it was full, so
    /// that nothing can be added though places are left.
    pub open spec fn sealed(self, height: nat) -> bool
        decreases height,
    {
        match self {
            Node::Leaf(_) => false,
            Node::Complete { .. } => self.leaves(height).len() < pow4(height),
            Node::Active { children } => height > 0 && children.len() > 0 && children@.last().sealed(
                (height - 1) as nat,
            ),
        }
    }

    /// Whether the node takes another leaf: it is active, its right edge is
    /// not sealed, and it is not full.
    pub open spec fn has_room(self, height: nat) -> bool {
        self is Active && !self.sealed(height) && self.leaves(height).len() < pow4(height)
    }

    /// A row of nodes, all full but perhaps the last, holds its leaves in
    /// runs of one width: the `i`-th run is what lies below the `i`-th node.
    pub proof fn lemma_concat_parts(children: Seq<Node<Item>>, height: nat)
        requires
            children.len() <= 4,
            forall|i: int|
                0 <= i < children.len() - 1 ==> (#[trigger] children[i]).leaves(height).len()
                    == pow4(height),
            children.len() > 0 ==> children.last().leaves(height).len() <= pow4(height),
        ensures
            children.len() == 0 ==> Self::concat(children, height).len() == 0,
            children.len() > 0 ==> Self::concat(children, height).len() == (children.len() - 1)
                * pow4(height) + children.last().leaves(height).len(),
            part(Self::concat(children, height), 0, pow4(height)) == Self::leaves_at(
                children,
                0,
                height,
            ),
            part(Self::concat(children, height), 1, pow4(height)) == Self::leaves_at(
                children,
                1,
                height,
            ),
            part(Self::concat(children, height), 2, pow4(height)) == Self::leaves_at(
                children,
                2,
                height,
            ),
            part(Self::concat(children, height), 3, pow4(height)) == Self::leaves_at(
                children,
                3,
                height,
            ),
        decreases children.len(),
    {
        let width = pow4(height);
        let all = Self::concat(children, height);
        let count = children.len() as int;
        lemma_multiples(width);
        lemma_pow4_positive(height);
        if count == 0 {
            assert(part(all, 0, width) =~= Self::leaves_at(children, 0, height));
            assert(part(all, 1, width) =~= Self::leaves_at(children, 1, height));
            assert(part(all, 2, width) =~= Self::leaves_at(children, 2, height));
            assert(part(all, 3, width) =~= Self::leaves_at(children, 3, height));
        } else {
            let front = children.drop_last();
            let head = Self::concat(front, height);
            let tail = children.last().leaves(height);
            assert forall|i: int| 0 <= i < front.len() - 1 implies (#[trigger] front[i]).leaves(
                height,
            ).len() == pow4(height) by {
                assert(front[i] == children[i]);
            }
            if front.len() > 0 {
                assert(front.last() == children[count - 2]);
            }
            Self::lemma_concat_parts(front, height);
            let offset = (count - 1) * width;
            assert(head.len() == offset) by (nonlinear_arith)
                requires
                    count == 1 ==> head.len() == 0,
                    count > 1 ==> head.len() == (count - 2) * width + width,
                    offset == (count - 1) * width,
                    count >= 1,
            ;
            assert((count == 1 ==> offset == 0) && (count == 2 ==> offset == width) && (count == 3
                ==> offset == width + width) && (count == 4 ==> offset == width + width + width))
                by (nonlinear_arith)
                requires
                    offset == (count - 1) * width,
            ;
            assert(all == head + tail);
            assert(forall|i: int| 0 <= i < front.len() ==> front[i] == children[i]);
            assert(part(all, 0, width) =~= Self::leaves_at(children, 0, height)) by {
                assert(part(head, 0, width) == Self::leaves_at(front, 0, height));
            }
            assert(part(all, 1, width) =~= Self::leaves_at(children, 1, height)) by {
                assert(part(head, 1, width) == Self::leaves_at(front, 1, height));
            }
            assert(part(all, 2, width) =~= Self::leaves_at(children, 2, height)) by {
                assert(part(head, 2, width) == Self::leaves_at(front, 2, height));
            }
            assert(part(all, 3, width) =~= Self::leaves_at(children, 3, height)) by {
                assert(part(head, 3, width) == Self::leaves_at(front, 3, height));
            }
        }
    }

    /// What well-formedness gives of the leaves of a node: there are at most
    /// as many as the height allows, each is well formed, and they lie in
    /// four runs, one below each child.
    pub proof fn lemma_leaves(self, base: nat, height: nat)
        requires
            self.wf(base, height),
        ensures
            self.leaves(height).len() <= pow4(height),
            self is Leaf ==> self.leaves(height).len() == 1 && height == 0,
            forall|i: int|
                0 <= i < self.leaves(height).len() ==> (#[trigger] self.leaves(height)[i]).wf(),
            !(self is Leaf) ==> {
                let below = (height - 1) as nat;
                let children = self.children();
                &&& children.len() == 0 ==> self.leaves(height).len() == 0
                &&& children.len() > 0 ==> self.leaves(height).len() == (children.len() - 1) * pow4(
                    below,
                ) + children.last().leaves(below).len()
                &&& children.len() > 0 ==> children.last().leaves(below).len() <= pow4(below)
                &&& part(self.leaves(height), 0, pow4(below)) == Self::leaves_at(children, 0, below)
                &&& part(self.leaves(height), 1, pow4(below)) == Self::leaves_at(children, 1, below)
                &&& part(self.leaves(height), 2, pow4(below)) == Self::leaves_at(children, 2, below)
                &&& part(self.leaves(height), 3, pow4(below)) == Self::leaves_at(children, 3, below)
            },
        decreases height,
    {
        if !(self is Leaf) {
            let below = (height - 1) as nat;
            let width = pow4(below);
            let children = self.children();
            let count = children.len() as int;
            let all = self.leaves(height);
            lemma_pow4_step(height);
            lemma_multiples(width);
            assert forall|i: int| 0 <= i < count implies (#[trigger] children[i]).leaves(
                below,
            ).len() <= width && (forall|j: int|
                0 <= j < children[i].leaves(below).len() ==> (#[trigger] children[i].leaves(
                    below,
                )[j]).wf()) by {
                children[i].lemma_leaves(base, below);
            }
            Self::lemma_concat_parts(children, below);
            if count > 0 {
                let last = children.last().leaves(below).len();
                assert((count - 1) * width + last <= 4 * width) by (nonlinear_arith)
                    requires
                        1 <= count <= 4,
                        last <= width,
                ;
            }
            assert forall|i: int| 0 <= i < all.len() implies (#[trigger] all[i]).wf() by {
                let run = i / (width as int);
                let rest = i % (width as int);
                assert(i == run * width + rest && 0 <= rest < width && 0 <= run < 4)
                    by (nonlinear_arith)
                    requires
                        run == i / (width as int),
                        rest == i % (width as int),
                        width > 0,
                        0 <= i < 4 * width,
                ;
                if run == 0 {
                    assert(part(all, 0, width)[rest] == all[i]);
                } else if run == 1 {
                    assert(part(all, 1, width)[rest] == all[i]);
                } else if run == 2 {
                    assert(run * width == 2 * width) by (nonlinear_arith)
                        requires
                            run == 2,
                    ;
                    assert(part(all, 2, width)[rest] == all[i]);
                } else {
                    assert(run * width == 3 * width) by (nonlinear_arith)
                        requires
                            run == 3,
                    ;
                    assert(part(all, 3, width)[rest] == all[i]);
                }
            }
        } else {
            assert(self.leaves(height).len() == 1);
        }
    }

    /// The node that a way of steps leads to: each step names the child to
    /// take.
    pub open spec fn follow(self, steps: Seq<u8>) -> Node<Item>
        decreases steps.len(),
    {
        if steps.len() == 0 {
            self
        } else {
            self.children()[steps[0] as int].follow(steps.skip(1))
        }
    }

    /// Positions are places: the way that `digits` gives for an index leads
    /// from a node to its leaf at that index.
    pub proof fn lemma_follow(self, base: nat, height: nat, index: nat)
        requires
            self.wf(base, height),
            index < self.leaves(height).len(),
        ensures
            self.follow(digits(index, height)) == Node::Leaf(self.leaves(height)[index as int]),
        decreases height,
    {
        self.lemma_leaves(base, height);
        if self is Leaf {
            assert(digits(index, height).len() == 0);
        } else {
            let below = (height - 1) as nat;
            let width = pow4(below);
            let children = self.children();
            let steps = digits(index, height);
            lemma_pow4_step(height);
            lemma_part_index(self.leaves(height), index, width);
            let run = index / width;
            let rest = index % width;
            assert(run == 0 || run == 1 || run == 2 || run == 3);
            assert(steps.skip(1) =~= digits(rest, below));
            assert(steps[0] == run);
            children[run as int].lemma_follow(base, below, rest);
        }
    }

    /// The hash of a well-formed node is the root of its leaves' hashes.
    pub proof fn lemma_digest(self, base: nat, height: nat)
        requires
            self.wf(base, height),
        ensures
            self.digest(base, height) == root_of(base, height, self.digests(height)),
        decreases height,
    {
        if self is Leaf {
            assert(self.leaves(height).len() == 1);
        } else {
            let below = (height - 1) as nat;
            let width = pow4(below);
            let children = self.children();
            let all = self.digests(height);
            self.lemma_leaves(base, height);
            lemma_root_of_empty(base, below);
            assert forall|i: int| 0 <= i < 4 implies #[trigger] Self::slot(children, i, base, below)
                == root_of(base, below, digests_of(Self::leaves_at(children, i, below))) by {
                if i < children.len() {
                    children[i].lemma_digest(base, below);
                } else {
                    assert(digests_of(Self::leaves_at(children, i, below)) =~= Seq::empty());
                }
            }
            assert(part(all, 0, width) =~= digests_of(part(self.leaves(height), 0, width)));
            assert(part(all, 1, width) =~= digests_of(part(self.leaves(height), 1, width)));
            assert(part(all, 2, width) =~= digests_of(part(self.leaves(height), 2, width)));
            assert(part(all, 3, width) =~= digests_of(part(self.leaves(height), 3, width)));
            assert(Self::slot(children, 0, base, below) == root_of(base, below, part(all, 0, width)));
            assert(Self::slot(children, 1, base, below) == root_of(base, below, part(all, 1, width)));
            assert(Self::slot(children, 2, base, below) == root_of(base, below, part(all, 2, width)));
            assert(Self::slot(children, 3, base, below) == root_of(base, below, part(all, 3, width)));
        }
    }

    /// A row of nodes with a last one replaced by a node over the same
    /// leaves, or over one leaf more, holds the leaves to match.
    proof fn lemma_concat_last(before: Seq<Node<Item>>, after: Seq<Node<Item>>, height: nat)
        requires
            before.len() > 0,
            after.len() == before.len(),
            forall|i: int| 0 <= i < before.len() - 1 ==> before[i] == after[i],
        ensures
            after.last().leaves(height) == before.last().leaves(height) ==> Self::concat(
                after,
                height,
            ) == Self::concat(before, height),
            forall|leaf: Leaf<Item>|
                after.last().leaves(height) == before.last().leaves(height).push(leaf)
                    ==> #[trigger] Self::concat(before, height).push(leaf) == Self::concat(
                    after,
                    height,
                ),
    {
        assert(after.drop_last() =~= before.drop_last());
        let head = Self::concat(before.drop_last(), height);
        assert forall|leaf: Leaf<Item>|
            after.last().leaves(height) == before.last().leaves(height).push(
                leaf,
            ) implies #[trigger] Self::concat(before, height).push(leaf) == Self::concat(
            after,
            height,
        ) by {
            assert((head + before.last().leaves(height)).push(leaf) =~= head + before.last().leaves(
                height,
            ).push(leaf));
        }
    }

    /// A node without children, which takes leaves at any height above zero.
    pub fn new() -> (node: Node<Item>)
        ensures
            node is Active,
            node.children() == Seq::<Node<Item>>::empty(),
    {
        let node = Node::Active { children: Vec::new() };
        assert(node.children() =~= Seq::<Node<Item>>::empty());
        node
    }

    /// A node of the given height that holds one leaf, at its left edge.
    pub fn spine(base: u8, height: u8, leaf: Leaf<Item>) -> (node: Node<Item>)
        requires
            leaf.wf(),
        ensures
            node.wf(base as nat, height as nat),
            node.leaves(height as nat) == seq![leaf],
            !node.sealed(height as nat),
            height == 0 ==> node == Node::Leaf(leaf),
            height > 0 ==> node is Active,
    {
        let mut node = Node::Leaf(leaf);
        let mut level: u8 = 0;
        while level < height
            invariant
                level <= height,
                node.wf(base as nat, level as nat),
                node.leaves(level as nat) == seq![leaf],
                !node.sealed(level as nat),
                level == 0 ==> node == Node::Leaf(leaf),
                level > 0 ==> node is Active,
            decreases height - level,
        {
            let ghost below = node;
            let mut children = Vec::new();
            children.push(node);
            node = Node::Active { children };
            level += 1;
            proof {
                lemma_pow4_step(level as nat);
                lemma_pow4_positive(level as nat);
                assert(node.children() =~= seq![below]);
                assert(node.children().drop_last() =~= Seq::empty());
                assert(Self::concat(node.children().drop_last(), (level - 1) as nat)
                    =~= Seq::empty());
                assert(node.leaves(level as nat) =~= seq![leaf]);
                if level > 1 {
                    lemma_pow4_step((level - 1) as nat);
                }
            }
        }
        node
    }

    fn kids(&self) -> (children: &Vec<Node<Item>>)
        requires
            !(self is Leaf),
        ensures
            children@ == self.children(),
    {
        match self {
            Node::Active { children } => children,
            Node::Complete { children, .. } => children,
            Node::Leaf(_) => vstd::pervasive::unreached(),
        }
    }

    /// Whether the node is frozen: a leaf or a complete node.
    pub fn frozen(&self) -> (complete: bool)
        ensures
            complete == self.is_complete(),
    {
        match self {
            Node::Active { .. } => false,
            _ => true,
        }
    }

    /// The number of leaves below the node.
    pub fn len(&self, base: u8, height: u8) -> (count: u64)
        requires
            self.wf(base as nat, height as nat),
            base + height <= MAX_HEIGHT,
        ensures
            count == self.leaves(height as nat).len(),
            count <= pow4(height as nat),
        decreases height,
    {
        proof {
            self.lemma_leaves(base as nat, height as nat);
        }
        match self {
            Node::Leaf(_) => 1,
            _ => {
                let children = self.kids();
                let k = children.len();
                if k == 0 {
                    0
                } else {
                    let w = width(height - 1);
                    let last = children[k - 1].len(base, height - 1);
                    assert((k - 1) * w + last <= 4 * w) by (nonlinear_arith)
                        requires
                            1 <= k <= 4,
                            last <= w,
                    ;
                    assert((k - 1) * w <= 3 * w) by (nonlinear_arith)
                        requires
                            1 <= k <= 4,
                            w >= 0,
                    ;
                    ((k - 1) as u64) * w + last
                }
            },
        }
    }

    /// Whether the right edge of the node was sealed before it was full.
    pub fn is_sealed(&self, base: u8, height: u8) -> (sealed: bool)
        requires
            self.wf(base as nat, height as nat),
            base + height <= MAX_HEIGHT,
        ensures
            sealed == self.sealed(height as nat),
        decreases height,
    {
        match self {
            Node::Leaf(_) => false,
            Node::Complete { .. } => self.len(base, height) < width(height),
            Node::Active { children } => {
                let k = children.len();
                k > 0 && children[k - 1].is_sealed(base, height - 1)
            },
        }
    }

    /// Whether the node takes another leaf.
    pub fn takes(&self, base: u8, height: u8) -> (room: bool)
        requires
            self.wf(base as nat, height as nat),
            base + height <= MAX_HEIGHT,
        ensures
            room == self.has_room(height as nat),
    {
        !self.frozen() && !self.is_sealed(base, height) && self.len(base, height) < width(height)
    }

    /// What the parts of the leaves' hashes are: the `i`-th part holds the
    /// hashes of the leaves below the `i`-th child, and its root is that
    /// child's hash, or the empty hash where there is no such child.
    pub proof fn lemma_parts(self, base: nat, height: nat)
        requires
            self.wf(base, height),
            !(self is Leaf),
        ensures
            self.digests(height).len() == self.leaves(height).len(),
            forall|i: int|
                0 <= i < 4 ==> part(self.digests(height), i as nat, pow4((height - 1) as nat))
                    == digests_of(
                    #[trigger] Self::leaves_at(self.children(), i, (height - 1) as nat),
                ),
            forall|i: int|
                0 <= i < 4 ==> #[trigger] Self::slot(self.children(), i, base, (height - 1) as nat)
                    == root_of(
                    base,
                    (height - 1) as nat,
                    part(self.digests(height), i as nat, pow4((height - 1) as nat)),
                ),
    {
        let below = (height - 1) as nat;
        let width = pow4(below);
        let children = self.children();
        let all = self.digests(height);
        self.lemma_leaves(base, height);
        lemma_root_of_empty(base, below);
        assert(part(all, 0, width) =~= digests_of(part(self.leaves(height), 0, width)));
        assert(part(all, 1, width) =~= digests_of(part(self.leaves(height), 1, width)));
        assert(part(all, 2, width) =~= digests_of(part(self.leaves(height), 2, width)));
        assert(part(all, 3, width) =~= digests_of(part(self.leaves(height), 3, width)));
        assert forall|i: int| 0 <= i < 4 implies #[trigger] Self::slot(children, i, base, below)
            == root_of(base, below, part(all, i as nat, width)) by {
            if i < children.len() {
                children[i].lemma_digest(base, below);
            } else {
                assert(digests_of(Self::leaves_at(children, i, below)) =~= Seq::empty());
            }
        }
    }

    /// The root of the tree that holds one leaf, at its left edge.
    fn spine_root(base: u8, height: u8, leaf: hash::Hash, padding: &Padding) -> (h: hash::Hash)
        requires
            padding.wf(),
            base + height <= MAX_HEIGHT,
        ensures
            h@ == root_of(base as nat, height as nat, seq![leaf@]),
    {
        let mut h = leaf;
        let mut level: u8 = 0;
        assert(seq![leaf@].len() == 1);
        while level < height
            invariant
                level <= height,
                base + height <= MAX_HEIGHT,
                padding.wf(),
                h@ == root_of(base as nat, level as nat, seq![leaf@]),
            decreases height - level,
        {
            let empty = padding.get(base + level);
            level += 1;
            proof {
                lemma_root_of_single(base as nat, level as nat, leaf@);
            }
            h = hash::hash(base + level, &[h, empty, empty, empty]);
        }
        h
    }

    /// The path of the only leaf of a tree: empty siblings at every level.
    fn spine_trail(base: u8, height: u8, Ghost(leaf): Ghost<Seq<u8>>, padding: &Padding) -> (path:
        Vec<[hash::Hash; 3]>)
        requires
            padding.wf(),
            base + height <= MAX_HEIGHT,
        ensures
            path_view(path@) == path_of(base as nat, height as nat, seq![leaf], 0),
    {
        let mut path: Vec<[hash::Hash; 3]> = Vec::new();
        let mut level: u8 = 0;
        while level < height
            invariant
                level <= height,
                base + height <= MAX_HEIGHT,
                padding.wf(),
                path.len() == level,
                forall|i: int|
                    0 <= i < level ==> triple_view(#[trigger] path@[i]) == seq![
                        empty_digest((base + i) as nat),
                        empty_digest((base + i) as nat),
                        empty_digest((base + i) as nat),
                    ],
            decreases height - level,
        {
            let empty = padding.get(base + level);
            path.push([empty, empty, empty]);
            level += 1;
        }
        proof {
            lemma_path_of_single(base as nat, height as nat, leaf);
            assert(path_view(path@) =~= path_of(base as nat, height as nat, seq![leaf], 0));
        }
        path
    }

    /// What holds where a leaf is yet to come: which child it will fall
    /// under, and what that child holds.
    proof fn lemma_growth(self, base: nat, height: nat)
        requires
            self.wf(base, height),
            self.has_room(height),
        ensures
            height > 0,
            ({
                let below = (height - 1) as nat;
                let children = self.children();
                let count = children.len();
                let run = self.leaves(height).len() / pow4(below);
                if count > 0 && children.last() is Active {
                    &&& run == count - 1
                    &&& children.last().has_room(below)
                } else {
                    &&& run == count
                    &&& count < 4
                    &&& Self::leaves_at(children, run as int, below).len() == 0
                }
            }),
    {
        let below = (height - 1) as nat;
        let width = pow4(below) as int;
        let children = self.children();
        let count = children.len() as int;
        let len = self.leaves(height).len() as int;
        self.lemma_leaves(base, height);
        lemma_pow4_step(height);
        if count > 0 {
            let last = children.last();
            let held = last.leaves(below).len() as int;
            last.lemma_leaves(base, below);
            if last is Active {
                assert(len / width == count - 1) by (nonlinear_arith)
                    requires
                        len == (count - 1) * width + held,
                        0 <= held < width,
                        count >= 1,
                ;
            } else {
                assert(!last.sealed(below));
                assert(held == width);
                assert(len / width == count && count < 4) by (nonlinear_arith)
                    requires
                        len == (count - 1) * width + width,
                        width > 0,
                        len < 4 * width,
                        count >= 1,
                ;
            }
        } else {
            assert(0int / width == 0) by (nonlinear_arith)
                requires
                    width > 0,
            ;
        }
    }

    /// The root of one part of the leaves' hashes, with `next` at their end
    /// where it is given.
    fn part_root(
        &self,
        i: usize,
        base: u8,
        height: u8,
        padding: &Padding,
        next: Option<hash::Hash>,
    ) -> (h: hash::Hash)
        requires
            self.wf(base as nat, height as nat),
            !(self is Leaf),
            i < 4,
            padding.wf(),
            base + height <= MAX_HEIGHT,
            next is Some ==> self.has_room(height as nat),
        ensures
            h@ == root_of(
                base as nat,
                (height - 1) as nat,
                part(
                    extend(self.digests(height as nat), next),
                    i as nat,
                    pow4((height - 1) as nat),
                ),
            ),
        decreases height, 0nat,
    {
        let children = self.kids();
        let k = children.len();
        let grows = k > 0 && !children[k - 1].frozen();
        let ghost below = (height - 1) as nat;
        let ghost all = self.digests(height as nat);
        proof {
            self.lemma_leaves(base as nat, height as nat);
            self.lemma_parts(base as nat, height as nat);
            lemma_pow4_step(height as nat);
            lemma_root_of_empty(base as nat, below);
            assert(Self::leaves_at(children@, i as int, below) == Self::leaves_at(
                children@,
                i as int,
                below,
            ));
            if next is Some {
                self.lemma_growth(base as nat, height as nat);
                lemma_parts_push(all, next->0@, pow4(below));
                assert(part(all.push(next->0@), i as nat, pow4(below)) == if i == all.len() / pow4(
                    below,
                ) {
                    part(all, i as nat, pow4(below)).push(next->0@)
                } else {
                    part(all, i as nat, pow4(below))
                });
            }
        }
        let target = if grows {
            k - 1
        } else {
            k
        };
        match next {
            Some(leaf) if i == target => {
                if grows {
                    children[k - 1].root(base, height - 1, padding, next)
                } else {
                    proof {
                        assert(part(all, i as nat, pow4(below)).push(leaf@) =~= seq![leaf@]);
                    }
                    Self::spine_root(base, height - 1, leaf, padding)
                }
            },
            _ => {
                if i < k {
                    children[i].root(base, height - 1, padding, None)
                } else {
                    proof {
                        assert(part(all, i as nat, pow4(below)) =~= Seq::empty());
                    }
                    padding.get(base + height - 1)
                }
            },
        }
    }

    /// The hash of the node over its leaves, with `next` at their end where
    /// it is given.
    fn root(&self, base: u8, height: u8, padding: &Padding, next: Option<hash::Hash>) -> (h:
        hash::Hash)
        requires
            self.wf(base as nat, height as nat),
            padding.wf(),
            base + height <= MAX_HEIGHT,
            next is Some ==> self.has_room(height as nat),
        ensures
            h@ == root_of(base as nat, height as nat, extend(self.digests(height as nat), next)),
        decreases height, 1nat,
    {
        proof {
            self.lemma_digest(base as nat, height as nat);
        }
        match self {
            Node::Leaf(leaf) => leaf.hash(),
            Node::Complete { hash, .. } => *hash,
            Node::Active { .. } => {
                let a = self.part_root(0, base, height, padding, next);
                let b = self.part_root(1, base, height, padding, next);
                let c = self.part_root(2, base, height, padding, next);
                let d = self.part_root(3, base, height, padding, next);
                hash::hash(base + height, &[a, b, c, d])
            },
        }
    }

    /// The hash of the node. A complete node gives the hash it keeps; an
    /// active one combines the hashes of its children, with the empty hash
    /// where a child is absent, and computes that of its last child anew if
    /// that one is active too.
    pub fn hash(&self, base: u8, height: u8, padding: &Padding) -> (h: hash::Hash)
        requires
            self.wf(base as nat, height as nat),
            padding.wf(),
            base + height <= MAX_HEIGHT,
        ensures
            h@ == root_of(base as nat, height as nat, self.digests(height as nat)),
            h@ == self.digest(base as nat, height as nat),
    {
        proof {
            self.lemma_digest(base as nat, height as nat);
        }
        self.root(base, height, padding, None)
    }

    /// The hash that the node would have with one more leaf at its right
    /// edge, a leaf that hashes to `next`.
    pub fn hash_with(&self, base: u8, height: u8, padding: &Padding, next: hash::Hash) -> (h:
        hash::Hash)
        requires
            self.wf(base as nat, height as nat),
            self.has_room(height as nat),
            padding.wf(),
            base + height <= MAX_HEIGHT,
        ensures
            h@ == root_of(base as nat, height as nat, self.digests(height as nat).push(next@)),
    {
        self.root(base, height, padding, Some(next))
    }

    /// The hashes of the three children beside the `j`-th, over the leaves'
    /// hashes with `next` at their end where it is given.
    fn siblings(
        &self,
        j: u64,
        base: u8,
        height: u8,
        padding: &Padding,
        next: Option<hash::Hash>,
    ) -> (siblings: [hash::Hash; 3])
        requires
            self.wf(base as nat, height as nat),
            !(self is Leaf),
            j < 4,
            padding.wf(),
            base + height <= MAX_HEIGHT,
            next is Some ==> self.has_room(height as nat),
        ensures
            triple_view(siblings) == children_of(
                base as nat,
                height as nat,
                extend(self.digests(height as nat), next),
            ).remove(j as int),
    {
        let a = if j == 0 {
            self.part_root(1, base, height, padding, next)
        } else {
            self.part_root(0, base, height, padding, next)
        };
        let b = if j <= 1 {
            self.part_root(2, base, height, padding, next)
        } else {
            self.part_root(1, base, height, padding, next)
        };
        let c = if j <= 2 {
            self.part_root(3, base, height, padding, next)
        } else {
            self.part_root(2, base, height, padding, next)
        };
        let siblings = [a, b, c];
        proof {
            assert(triple_view(siblings) =~= children_of(
                base as nat,
                height as nat,
                extend(self.digests(height as nat), next),
            ).remove(j as int));
        }
        siblings
    }

    /// The path of the leaf at `index` among the leaves' hashes, with `next`
    /// at their end where it is given.
    fn trail(
        &self,
        base: u8,
        height: u8,
        index: u64,
        padding: &Padding,
        next: Option<hash::Hash>,
    ) -> (path: Vec<[hash::Hash; 3]>)
        requires
            self.wf(base as nat, height as nat),
            padding.wf(),
            base + height <= MAX_HEIGHT,
            next is Some ==> self.has_room(height as nat),
            index < extend(self.digests(height as nat), next).len(),
        ensures
            path_view(path@) == path_of(
                base as nat,
                height as nat,
                extend(self.digests(height as nat), next),
                index as nat,
            ),
        decreases height,
    {
        if height == 0 {
            let path: Vec<[hash::Hash; 3]> = Vec::new();
            assert(path_view(path@) =~= Seq::empty());
            return path;
        }
        let children = self.kids();
        let k = children.len();
        let grows = k > 0 && !children[k - 1].frozen();
        let w = width(height - 1);
        let j = index / w;
        let rest = index % w;
        let ghost below = (height - 1) as nat;
        let ghost all = self.digests(height as nat);
        let ghost more = extend(all, next);
        proof {
            self.lemma_leaves(base as nat, height as nat);
            self.lemma_parts(base as nat, height as nat);
            lemma_pow4_step(height as nat);
            lemma_part_index(more, index as nat, pow4(below));
            assert(j == 0 || j == 1 || j == 2 || j == 3);
            assert(Self::leaves_at(children@, j as int, below) == Self::leaves_at(
                children@,
                j as int,
                below,
            ));
            if next is Some {
                self.lemma_growth(base as nat, height as nat);
                lemma_parts_push(all, next->0@, pow4(below));
                assert(part(all.push(next->0@), j as nat, pow4(below)) == if j == all.len() / pow4(
                    below,
                ) {
                    part(all, j as nat, pow4(below)).push(next->0@)
                } else {
                    part(all, j as nat, pow4(below))
                });
            }
        }
        let target = if grows {
            k - 1
        } else {
            k
        };
        let mut path = match next {
            Some(leaf) if j == target as u64 => {
                if grows {
                    children[k - 1].trail(base, height - 1, rest, padding, next)
                } else {
                    proof {
                        assert(part(all, j as nat, pow4(below)).push(leaf@) =~= seq![leaf@]);
                        assert(seq![leaf@].len() == 1);
                    }
                    Self::spine_trail(base, height - 1, Ghost(leaf@), padding)
                }
            },
            _ => {
                children[j as usize].trail(base, height - 1, rest, padding, None)
            },
        };
        let siblings = self.siblings(j, base, height, padding, next);
        let ghost lower = path@;
        path.push(siblings);
        proof {
            assert(path_view(path@) =~= path_view(lower).push(triple_view(siblings)));
        }
        path
    }

    /// The path that proves the leaf at `index`: for each level from the
    /// lowest to this node, the hashes of the three siblings met there.
    /// Nothing where the node has no such leaf.
    pub fn path(&self, base: u8, height: u8, index: u64, padding: &Padding) -> (path: Option<
        Vec<[hash::Hash; 3]>,
    >)
        requires
            self.wf(base as nat, height as nat),
            padding.wf(),
            base + height <= MAX_HEIGHT,
        ensures
            path is Some <==> index < self.leaves(height as nat).len(),
            path matches Some(found) ==> path_view(found@) == path_of(
                base as nat,
                height as nat,
                self.digests(height as nat),
                index as nat,
            ),
    {
        if index < self.len(base, height) {
            Some(self.trail(base, height, index, padding, None))
        } else {
            None
        }
    }

    /// The path that the leaf at `index` would have if the node had one more
    /// leaf at its right edge, a leaf that hashes to `next`; `index` may be
    /// the place of that leaf. Nothing where `index` lies beyond it.
    pub fn path_with(
        &self,
        base: u8,
        height: u8,
        index: u64,
        padding: &Padding,
        next: hash::Hash,
    ) -> (path: Option<Vec<[hash::Hash; 3]>>)
        requires
            self.wf(base as nat, height as nat),
            self.has_room(height as nat),
            padding.wf(),
            base + height <= MAX_HEIGHT,
        ensures
            path is Some <==> index <= self.leaves(height as nat).len(),
            path matches Some(found) ==> path_view(found@) == path_of(
                base as nat,
                height as nat,
                self.digests(height as nat).push(next@),
                index as nat,
            ),
    {
        if index <= self.len(base, height) {
            Some(self.trail(base, height, index, padding, Some(next)))
        } else {
            None
        }
    }

    /// The leaf at `index`, counted from the left, or nothing where the node
    /// has no such leaf.
    pub fn get(&self, base: u8, height: u8, index: u64) -> (leaf: Option<&Leaf<Item>>)
        requires
            self.wf(base as nat, height as nat),
            base + height <= MAX_HEIGHT,
        ensures
            leaf is Some <==> index < self.leaves(height as nat).len(),
            leaf matches Some(found) ==> *found == self.leaves(height as nat)[index as int],
        decreases height,
    {
        match self {
            Node::Leaf(leaf) => if index == 0 {
                Some(leaf)
            } else {
                None
            },
            _ => {
                let children = self.kids();
                let w = width(height - 1);
                let j = index / w;
                let rest = index % w;
                proof {
                    let below = (height - 1) as nat;
                    self.lemma_leaves(base as nat, height as nat);
                    lemma_pow4_step(height as nat);
                    lemma_part_index(self.leaves(height as nat), index as nat, pow4(below));
                    assert(j < 4 ==> j == 0 || j == 1 || j == 2 || j == 3);
                }
                if j < children.len() as u64 {
                    children[j as usize].get(base, height - 1, rest)
                } else {
                    None
                }
            },
        }
    }

    /// Puts `leaf` in the place of the leaf at `index`, which has the same
    /// hash, and returns the leaf that stood there.
    pub(crate) fn swap(&mut self, base: u8, height: u8, index: u64, leaf: Leaf<Item>) -> (held: Leaf<
        Item,
    >)
        requires
            old(self).wf(base as nat, height as nat),
            base + height <= MAX_HEIGHT,
            index < old(self).leaves(height as nat).len(),
            leaf.wf(),
            leaf.digest() == old(self).leaves(height as nat)[index as int].digest(),
        ensures
            final(self).wf(base as nat, height as nat),
            final(self).leaves(height as nat) == old(self).leaves(height as nat).update(
                index as int,
                leaf,
            ),
            held == old(self).leaves(height as nat)[index as int],
            final(self).digest(base as nat, height as nat) == old(self).digest(
                base as nat,
                height as nat,
            ),
            *final(self) is Active == *old(self) is Active,
            final(self).sealed(height as nat) == old(self).sealed(height as nat),
        decreases height,
    {
        let ghost start = *self;
        let ghost below = (height - 1) as nat;
        proof {
            start.lemma_leaves(base as nat, height as nat);
            if !(start is Leaf) {
                lemma_pow4_step(height as nat);
                lemma_part_index(start.leaves(height as nat), index as nat, pow4(below));
            }
        }
        let held = match self {
            Node::Leaf(slot) => {
                let mut leaf = leaf;
                core::mem::swap(slot, &mut leaf);
                leaf
            },
            Node::Active { children } => {
                let w = width(height - 1);
                let j = index / w;
                let rest = index % w;
                assert(j == 0 || j == 1 || j == 2 || j == 3);
                children[j as usize].swap(base, height - 1, rest, leaf)
            },
            Node::Complete { children, .. } => {
                let w = width(height - 1);
                let j = index / w;
                let rest = index % w;
                assert(j == 0 || j == 1 || j == 2 || j == 3);
                children[j as usize].swap(base, height - 1, rest, leaf)
            },
        };
        proof {
            if !(start is Leaf) {
                let w = pow4(below);
                let j = (index as nat / w) as int;
                let rest = (index as nat % w) as int;
                let before = start.children();
                let after = self.children();
                assert(after.len() == before.len());
                assert forall|i: int| 0 <= i < after.len() implies (#[trigger] after[i]).wf(
                    base as nat,
                    below,
                ) && after[i].leaves(below).len() == before[i].leaves(below).len() && (after[i]
                    is Active == before[i] is Active) && after[i].digest(base as nat, below)
                    == before[i].digest(base as nat, below) by {
                    if i != j {
                        assert(after[i] == before[i]);
                        assert(before[i].wf(base as nat, below));
                    }
                }
                assert forall|i: int| 0 <= i < after.len() - 1 implies (
                #[trigger] after[i]).is_complete() && after[i].leaves(below).len() == pow4(
                    below,
                ) by {
                    assert(before[i].is_complete());
                }
                assert forall|i: int|
                    0 <= i < after.len() && (#[trigger] after[i]) is Active implies after[i].leaves(
                    below,
                ).len() < pow4(below) by {
                    assert(before[i] is Active);
                }
                assert forall|i: int| 0 <= i < 4 implies #[trigger] Self::slot(
                    after,
                    i,
                    base as nat,
                    below,
                ) == Self::slot(before, i, base as nat, below) by {}
                if start is Complete {
                    assert forall|i: int| 0 <= i < after.len() implies (
                    #[trigger] after[i]).is_complete() by {
                        assert(before[i].is_complete());
                    }
                }
                assert(self.wf(base as nat, height as nat));
                self.lemma_leaves(base as nat, height as nat);
                let target = start.leaves(height as nat).update(index as int, leaf);
                lemma_parts_update(start.leaves(height as nat), index as nat, leaf, w);
                assert forall|i: nat| i < 4 implies part(self.leaves(height as nat), i, w) == part(
                    target,
                    i,
                    w,
                ) by {
                    assert(i == 0 || i == 1 || i == 2 || i == 3);
                    assert(part(target, i, w) == if i == j {
                        part(start.leaves(height as nat), i, w).update(rest, leaf)
                    } else {
                        part(start.leaves(height as nat), i, w)
                    });
                    if i != j && i < after.len() {
                        assert(after[i as int] == before[i as int]);
                    }
                }
                lemma_parts_determine(self.leaves(height as nat), target, w);
                assert(self.sealed(height as nat) == start.sealed(height as nat)) by {
                    if start is Active && before.len() > 0 {
                        if j != before.len() - 1 {
                            assert(after.last() == before.last());
                        }
                    }
                }
            } else {
                assert(self.leaves(height as nat) =~= start.leaves(height as nat).update(
                    index as int,
                    leaf,
                ));
            }
        }
        held
    }

    /// Forgets the item of the leaf at `index`: the leaf keeps its hash and
    /// nothing else. Returns whether there was an item to forget, and
    /// `UnknownPosition` where the node has no such leaf.
    pub fn forget(&mut self, base: u8, height: u8, index: u64) -> (result: Result<bool, Error>)
        requires
            old(self).wf(base as nat, height as nat),
            base + height <= MAX_HEIGHT,
        ensures
            final(self).wf(base as nat, height as nat),
            final(self).digest(base as nat, height as nat) == old(self).digest(
                base as nat,
                height as nat,
            ),
            *final(self) is Active == *old(self) is Active,
            final(self).sealed(height as nat) == old(self).sealed(height as nat),
            match result {
                Ok(forgot) => {
                    &&& index < old(self).leaves(height as nat).len()
                    &&& forgot == (old(self).leaves(height as nat)[index as int] is Complete)
                    &&& final(self).leaves(height as nat) == old(self).leaves(height as nat).update(
                        index as int,
                        old(self).leaves(height as nat)[index as int].forgotten(),
                    )
                },
                Err(error) => {
                    &&& index >= old(self).leaves(height as nat).len()
                    &&& error == Error::UnknownPosition
                    &&& *final(self) == *old(self)
                },
            },
    {
        let hash = match self.get(base, height, index) {
            Some(leaf) => leaf.hash(),
            None => {
                return Err(Error::UnknownPosition);
            },
        };
        let held = self.swap(base, height, index, Leaf::Forgotten(hash));
        Ok(held.is_kept())
    }

    /// Freezes the last child of the node, and everything below it, where it
    /// is still active. The node itself stays as it is.
    pub fn seal_rightmost(&mut self, base: u8, height: u8, padding: &Padding)
        requires
            old(self).wf(base as nat, height as nat),
            padding.wf(),
            base + height <= MAX_HEIGHT,
        ensures
            final(self).wf(base as nat, height as nat),
            final(self).leaves(height as nat) == old(self).leaves(height as nat),
            final(self).is_complete() == old(self).is_complete(),
            final(self).children().len() == old(self).children().len(),
            forall|i: int|
                0 <= i < final(self).children().len() ==> (#[trigger] final(self).children()[i])
                    .is_complete(),
        decreases height, 0nat,
    {
        match self {
            Node::Active { children } => {
                let k = children.len();
                if k > 0 {
                    let ghost before = children@;
                    children[k - 1].seal(base, height - 1, padding);
                    proof {
                        let after = children@;
                        let below = (height - 1) as nat;
                        assert(after.len() == before.len());
                        assert forall|i: int| 0 <= i < after.len() - 1 implies before[i]
                            == after[i] by {}
                        Self::lemma_concat_last(before, after, below);
                        assert forall|i: int| 0 <= i < after.len() implies (#[trigger] after[i]).wf(
                            base as nat,
                            below,
                        ) by {
                            if i < k - 1 {
                                assert(before[i].wf(base as nat, below));
                            }
                        }
                        assert forall|i: int| 0 <= i < after.len() - 1 implies (
                        #[trigger] after[i]).is_complete() && after[i].leaves(below).len() == pow4(
                            below,
                        ) by {
                            assert(before[i].is_complete());
                        }
                        assert forall|i: int| 0 <= i < after.len() implies (
                        #[trigger] after[i]).is_complete() by {
                            if i < k - 1 {
                                assert(before[i].is_complete());
                            }
                        }
                    }
                }
            },
            _ => {},
        }
    }

    /// Freezes the node and everything below it that is still active: each
    /// gets the hash of what it holds, with empty hashes for the places that
    /// were never filled, and takes nothing more.
    pub fn seal(&mut self, base: u8, height: u8, padding: &Padding)
        requires
            old(self).wf(base as nat, height as nat),
            padding.wf(),
            base + height <= MAX_HEIGHT,
        ensures
            final(self).wf(base as nat, height as nat),
            final(self).is_complete(),
            final(self).leaves(height as nat) == old(self).leaves(height as nat),
        decreases height, 1nat,
    {
        if !self.frozen() {
            self.seal_rightmost(base, height, padding);
            let hash = self.hash(base, height, padding);
            let mut taken = Node::new();
            core::mem::swap(self, &mut taken);
            match taken {
                Node::Active { children } => {
                    *self = Node::Complete { children, hash };
                },
                _ => {},
            }
        }
    }

    /// Adds a leaf at the right edge of a node that has room for it, and
    /// freezes each node that the leaf has filled. Returns the number of
    /// leaves that the node held before.
    fn push(&mut self, base: u8, height: u8, leaf: Leaf<Item>, padding: &Padding) -> (position: u64)
        requires
            old(self).wf(base as nat, height as nat),
            old(self).has_room(height as nat),
            leaf.wf(),
            padding.wf(),
            base + height <= MAX_HEIGHT,
        ensures
            final(self).wf(base as nat, height as nat),
            *final(self) is Active,
            !final(self).sealed(height as nat),
            final(self).leaves(height as nat) == old(self).leaves(height as nat).push(leaf),
            position == old(self).leaves(height as nat).len(),
        decreases height,
    {
        proof {
            self.lemma_leaves(base as nat, height as nat);
            lemma_pow4_step(height as nat);
        }
        let ghost below = (height - 1) as nat;
        let w = width(height - 1);
        match self {
            Node::Active { children } => {
                let k = children.len();
                let ghost before = children@;
                if k > 0 && !children[k - 1].frozen() {
                    let ghost last = before[k - 1];
                    assert(last.has_room(below));
                    let inner = children[k - 1].push(base, height - 1, leaf, padding);
                    if inner + 1 == w {
                        children[k - 1].seal(base, height - 1, padding);
                    }
                    proof {
                        let after = children@;
                        assert(after.len() == before.len());
                        assert forall|i: int| 0 <= i < after.len() - 1 implies before[i]
                            == after[i] by {}
                        Self::lemma_concat_last(before, after, below);
                        assert(Self::concat(before, below).push(leaf) == Self::concat(after, below));
                        assert forall|i: int| 0 <= i < after.len() implies (#[trigger] after[i]).wf(
                            base as nat,
                            below,
                        ) by {
                            if i < k - 1 {
                                assert(before[i].wf(base as nat, below));
                            }
                        }
                        assert forall|i: int| 0 <= i < after.len() - 1 implies (
                        #[trigger] after[i]).is_complete() && after[i].leaves(below).len() == pow4(
                            below,
                        ) by {
                            assert(before[i].is_complete());
                        }
                        assert forall|i: int|
                            0 <= i < after.len() && (#[trigger] after[i]) is Active implies after[i].leaves(
                            below,
                        ).len() < pow4(below) by {
                            if i < k - 1 {
                                assert(before[i].is_complete());
                            }
                        }
                        assert(!after.last().sealed(below));
                    }
                    assert((k - 1) * w + inner < 4 * w) by (nonlinear_arith)
                        requires
                            1 <= k <= 4,
                            inner < w,
                    ;
                    assert((k - 1) * w <= 3 * w) by (nonlinear_arith)
                        requires
                            1 <= k <= 4,
                            w >= 0,
                    ;
                    ((k - 1) as u64) * w + inner
                } else {
                    proof {
                        if k > 0 {
                            let last = before[k - 1];
                            assert(last.is_complete());
                            assert(!last.sealed(below));
                            last.lemma_leaves(base as nat, below);
                            assert(last.leaves(below).len() == pow4(below));
                            assert(k < 4) by (nonlinear_arith)
                                requires
                                    1 <= k <= 4,
                                    (k - 1) * w + w < 4 * w,
                            ;
                        }
                        assert(k * w <= 3 * w) by (nonlinear_arith)
                            requires
                                0 <= k <= 3,
                                w >= 0,
                        ;
                        assert(k > 0 ==> (k - 1) * w + w == k * w) by (nonlinear_arith);
                    }
                    let fresh = Node::spine(base, height - 1, leaf);
                    children.push(fresh);
                    proof {
                        let after = children@;
                        assert(after.drop_last() =~= before);
                        assert(Self::concat(after, below) =~= Self::concat(before, below).push(leaf));
                        assert forall|i: int| 0 <= i < after.len() implies (#[trigger] after[i]).wf(
                            base as nat,
                            below,
                        ) by {
                            if i < k {
                                assert(before[i].wf(base as nat, below));
                            }
                        }
                        assert forall|i: int| 0 <= i < after.len() - 1 implies (
                        #[trigger] after[i]).is_complete() && after[i].leaves(below).len() == pow4(
                            below,
                        ) by {
                            if i < k - 1 {
                                assert(before[i].is_complete());
                            }
                        }
                        assert forall|i: int|
                            0 <= i < after.len() && (#[trigger] after[i]) is Active implies after[i].leaves(
                            below,
                        ).len() < pow4(below) by {
                            if i < k {
                                assert(before[i].is_complete());
                            } else {
                                if below > 0 {
                                    lemma_pow4_step(below);
                                }
                            }
                        }
                    }
                    (k as u64) * w
                }
            },
            _ => {
                proof {
                    assert(false);
                }
                0
            },
        }
    }

    /// Adds a leaf at the right edge of the node. Returns the position of the
    /// leaf, counted from the left. A node that is full refuses with `Full`;
    /// one whose right edge was sealed, or which is complete, with
    /// `AlreadySealed`. A refusal leaves the node as it was.
    pub fn insert(&mut self, base: u8, height: u8, leaf: Leaf<Item>, padding: &Padding) -> (result:
        Result<u64, Error>)
        requires
            old(self).wf(base as nat, height as nat),
            leaf.wf(),
            padding.wf(),
            base + height <= MAX_HEIGHT,
        ensures
            final(self).wf(base as nat, height as nat),
            final(self).is_complete() == old(self).is_complete(),
            match result {
                Ok(position) => {
                    &&& old(self).has_room(height as nat)
                    &&& position == old(self).leaves(height as nat).len()
                    &&& final(self).leaves(height as nat) == old(self).leaves(height as nat).push(
                        leaf,
                    )
                    &&& !final(self).sealed(height as nat)
                },
                Err(error) => {
                    &&& !old(self).has_room(height as nat)
                    &&& *final(self) == *old(self)
                    &&& error == if old(self).leaves(height as nat).len() == pow4(height as nat) {
                        Error::Full
                    } else {
                        Error::AlreadySealed
                    }
                },
            },
    {
        if self.takes(base, height) {
            Ok(self.push(base, height, leaf, padding))
        } else if self.len(base, height) == width(height) {
            Err(Error::Full)
        } else {
            Err(Error::AlreadySealed)
        }
    }

    /// The hash that the children of a node give it, with the empty hash
    /// where a child is absent.
    fn combine(children: &Vec<Node<Item>>, base: u8, height: u8, padding: &Padding) -> (h:
        hash::Hash)
        requires
            height > 0,
            base + height <= MAX_HEIGHT,
            padding.wf(),
            forall|i: int|
                0 <= i < children.len() ==> (#[trigger] children@[i]).wf(
                    base as nat,
                    (height - 1) as nat,
                ),
        ensures
            h@ == node_digest(
                (base + height) as nat,
                Self::slot(children@, 0, base as nat, (height - 1) as nat),
                Self::slot(children@, 1, base as nat, (height - 1) as nat),
                Self::slot(children@, 2, base as nat, (height - 1) as nat),
                Self::slot(children@, 3, base as nat, (height - 1) as nat),
            ),
    {
        let empty = padding.get(base + height - 1);
        let k = children.len();
        let a = if 0 < k {
            children[0].hash(base, height - 1, padding)
        } else {
            empty
        };
        let b = if 1 < k {
            children[1].hash(base, height - 1, padding)
        } else {
            empty
        };
        let c = if 2 < k {
            children[2].hash(base, height - 1, padding)
        } else {
            empty
        };
        let d = if 3 < k {
            children[3].hash(base, height - 1, padding)
        } else {
            empty
        };
        hash::hash(base + height, &[a, b, c, d])
    }

    /// Finds out whether the node is well formed, for a node that comes from
    /// outside: walks all of it, and computes every hash that it keeps anew.
    pub fn check(&self, base: u8, height: u8, padding: &Padding) -> (ok: bool)
        requires
            padding.wf(),
            base + height <= MAX_HEIGHT,
        ensures
            ok == self.wf(base as nat, height as nat),
        decreases height,
    {
        match self {
            Node::Leaf(leaf) => height == 0 && leaf.check(padding),
            _ => {
                if height == 0 {
                    return false;
                }
                let children = self.kids();
                let k = children.len();
                if k > 4 {
                    return false;
                }
                let w = width(height - 1);
                let whole = !self.frozen();
                let ghost below = (height - 1) as nat;
                let mut i: usize = 0;
                while i < k
                    invariant
                        i <= k == children@.len() <= 4,
                        children@ == self.children(),
                        !(self is Leaf),
                        height > 0,
                        below == height - 1,
                        base + height <= MAX_HEIGHT,
                        padding.wf(),
                        w == pow4(below),
                        whole == (self is Active),
                        forall|j: int| 0 <= j < i ==> (#[trigger] children@[j]).wf(base as nat, below),
                        forall|j: int|
                            0 <= j < i && j < k - 1 ==> (#[trigger] children@[j]).is_complete()
                                && children@[j].leaves(below).len() == pow4(below),
                        forall|j: int|
                            0 <= j < i && (#[trigger] children@[j]) is Active
                                ==> children@[j].leaves(below).len() < pow4(below),
                        !whole ==> forall|j: int|
                            0 <= j < i ==> (#[trigger] children@[j]).is_complete(),
                    decreases k - i,
                {
                    let child = &children[i];
                    if !child.check(base, height - 1, padding) {
                        return false;
                    }
                    let complete = child.frozen();
                    let held = child.len(base, height - 1);
                    if i + 1 < k && !(complete && held == w) {
                        return false;
                    }
                    if !complete && held >= w {
                        return false;
                    }
                    if !whole && !complete {
                        return false;
                    }
                    i += 1;
                }
                match self {
                    Node::Complete { hash, .. } => {
                        let found = Self::combine(children, base, height, padding);
                        found == *hash
                    },
                    _ => true,
                }
            },
        }
    }
}

} // verus!
