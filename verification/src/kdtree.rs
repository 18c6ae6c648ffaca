//! A three-dimensional k-d tree over system positions, for finding the
//! system closest to a point.
use std::collections::HashSet;
use vstd::prelude::*;
use vstd::seq_lib::lemma_multiset_commutative;

use crate::types::{coord, dist_sq, largest_axis, largest_axis_of, law_largest_axis_is_largest, Vector3};

verus! {

broadcast use vstd::std_specs::hash::group_hash_axioms;

/// A node of the tree: a system and its position, with the subtrees of
/// the nodes on either side of it.
#[derive(Debug)]
pub struct Node3D<'a> {
    position: &'a Vector3,
    pub system_id: u32,
    left: Option<Box<Node3D<'a>>>,
    right: Option<Box<Node3D<'a>>>,
}

impl<'a> Clone for Node3D<'a> {
    fn clone(&self) -> (r: Self)
        ensures
            r == *self,
        decreases self,
    {
        let left = match &self.left {
            Some(b) => Some(Box::new((**b).clone())),
            None => None,
        };
        let right = match &self.right {
            Some(b) => Some(Box::new((**b).clone())),
            None => None,
        };
        Node3D { position: self.position, system_id: self.system_id, left, right }
    }
}

/// Coordinate of `v` along axis 0 (x), 1 (y) or any other (z).
fn axis_coord(v: &Vector3, axis: usize) -> (c: i32)
    ensures
        c == coord(*v, axis as nat),
{
    if axis == 0 {
        v.x
    } else if axis == 1 {
        v.y
    } else {
        v.z
    }
}

/// Number of recursion levels that building over `n` nodes goes through.
pub open spec fn build_height(n: nat) -> nat
    decreases n,
{
    if n == 0 {
        0
    } else {
        1 + build_height(n / 2)
    }
}

proof fn lemma_build_height_monotone(a: nat, b: nat)
    requires
        a <= b,
    ensures
        build_height(a) <= build_height(b),
    decreases b,
{
    if a > 0 {
        lemma_build_height_monotone(a / 2, b / 2);
    }
}

impl<'a> Node3D<'a> {
    /// The position of the node.
    pub closed spec fn spec_position(self) -> Vector3 {
        *self.position
    }

    /// The system of the node.
    pub closed spec fn spec_system_id(self) -> u32 {
        self.system_id
    }

    /// The subtree of nodes before this one.
    pub closed spec fn spec_left(self) -> Option<Box<Node3D<'a>>> {
        self.left
    }

    /// The subtree of nodes after this one.
    pub closed spec fn spec_right(self) -> Option<Box<Node3D<'a>>> {
        self.right
    }

    /// The system and position that a node stands for.
    pub closed spec fn entry(n: Node3D<'a>) -> (u32, Vector3) {
        (n.system_id, *n.position)
    }

    /// The entries of a sequence of nodes, in order.
    pub closed spec fn entries(s: Seq<Node3D<'a>>) -> Seq<(u32, Vector3)> {
        s.map_values(|n: Node3D<'a>| Self::entry(n))
    }

    /// The entries of a tree, left subtree first, then the node, then the
    /// right subtree.
    pub closed spec fn in_order(o: Option<Box<Node3D<'a>>>) -> Seq<(u32, Vector3)>
        decreases o,
    {
        match o {
            None => Seq::empty(),
            Some(b) => Self::in_order(b.left) + seq![Self::entry(*b)] + Self::in_order(b.right),
        }
    }

    /// Coordinate of a node's position along an axis.
    pub closed spec fn key(n: Node3D<'a>, axis: nat) -> int {
        coord(*n.position, axis)
    }

    /// The smallest coordinate along `axis` among nonempty `s`.
    pub closed spec fn min_key(s: Seq<Node3D<'a>>, axis: nat) -> int
        decreases s.len(),
    {
        if s.len() <= 1 {
            Self::key(s[0], axis)
        } else {
            let m = Self::min_key(s.drop_last(), axis);
            let k = Self::key(s.last(), axis);
            if k < m {
                k
            } else {
                m
            }
        }
    }

    /// The largest coordinate along `axis` among nonempty `s`.
    pub closed spec fn max_key(s: Seq<Node3D<'a>>, axis: nat) -> int
        decreases s.len(),
    {
        if s.len() <= 1 {
            Self::key(s[0], axis)
        } else {
            let m = Self::max_key(s.drop_last(), axis);
            let k = Self::key(s.last(), axis);
            if k > m {
                k
            } else {
                m
            }
        }
    }

    /// The axis along which the positions of `s` are spread the widest.
    pub closed spec fn split_axis(s: Seq<Node3D<'a>>) -> nat {
        largest_axis_of(
            Self::max_key(s, 0) - Self::min_key(s, 0),
            Self::max_key(s, 1) - Self::min_key(s, 1),
            Self::max_key(s, 2) - Self::min_key(s, 2),
        )
    }

    /// Sorted `t` with `x` put after every node whose coordinate is not
    /// larger than its own.
    pub closed spec fn insert_by(t: Seq<Node3D<'a>>, x: Node3D<'a>, axis: nat) -> Seq<Node3D<'a>>
        decreases t.len(),
    {
        if t.len() == 0 {
            seq![x]
        } else if Self::key(t.last(), axis) <= Self::key(x, axis) {
            t.push(x)
        } else {
            Self::insert_by(t.drop_last(), x, axis).push(t.last())
        }
    }

    /// `s` ordered by the coordinate along `axis`, nodes with equal
    /// coordinates keeping their order (a stable sort).
    pub closed spec fn sort_by_axis(s: Seq<Node3D<'a>>, axis: nat) -> Seq<Node3D<'a>>
        decreases s.len(),
    {
        if s.len() == 0 {
            s
        } else {
            Self::insert_by(Self::sort_by_axis(s.drop_last(), axis), s.last(), axis)
        }
    }

    proof fn lemma_insert_by_len(t: Seq<Node3D<'a>>, x: Node3D<'a>, axis: nat)
        ensures
            Self::insert_by(t, x, axis).len() == t.len() + 1,
        decreases t.len(),
    {
        if t.len() > 0 && Self::key(t.last(), axis) > Self::key(x, axis) {
            Self::lemma_insert_by_len(t.drop_last(), x, axis);
        }
    }

    proof fn lemma_sort_len(s: Seq<Node3D<'a>>, axis: nat)
        ensures
            Self::sort_by_axis(s, axis).len() == s.len(),
        decreases s.len(),
    {
        if s.len() > 0 {
            Self::lemma_sort_len(s.drop_last(), axis);
            Self::lemma_insert_by_len(Self::sort_by_axis(s.drop_last(), axis), s.last(), axis);
        }
    }

    /// What building over `s` leaves in the slice, and the tree it gives:
    /// the nodes are sorted along the axis of widest spread, the middle one
    /// (index `len / 2`) becomes the root, and the parts before and after it
    /// are built the same way into the left and right subtrees.
    pub closed spec fn build(s: Seq<Node3D<'a>>) -> (Seq<Node3D<'a>>, Option<Box<Node3D<'a>>>)
        decreases s.len(),
    {
        if s.len() == 0 {
            (s, None)
        } else {
            let t = Self::sort_by_axis(s, Self::split_axis(s));
            proof {
                Self::lemma_sort_len(s, Self::split_axis(s));
            }
            let mid = s.len() / 2;
            let l = Self::build(t.subrange(0, mid as int));
            let r = Self::build(t.subrange(mid as int + 1, s.len() as int));
            let root = Node3D {
                position: t[mid as int].position,
                system_id: t[mid as int].system_id,
                left: l.1,
                right: r.1,
            };
            (l.0 + seq![t[mid as int]] + r.0, Some(Box::new(root)))
        }
    }

    /// A node for the system `system_id` at `position`, with no subtrees.
    pub fn new(position: &'a Vector3, system_id: u32) -> (n: Self)
        ensures
            n.spec_position() == *position,
            n.spec_system_id() == system_id,
            n.spec_left() is None,
            n.spec_right() is None,
    {
        Node3D { position, system_id, left: None, right: None }
    }

    /// Axis of widest spread of a nonempty slice of nodes.
    fn spread_axis(nodes: &[Node3D<'a>]) -> (axis: usize)
        requires
            nodes@.len() > 0,
        ensures
            axis == Self::split_axis(nodes@),
    {
        let n = nodes.len();
        let mut low_x = nodes[0].position.x;
        let mut low_y = nodes[0].position.y;
        let mut low_z = nodes[0].position.z;
        let mut high_x = nodes[0].position.x;
        let mut high_y = nodes[0].position.y;
        let mut high_z = nodes[0].position.z;
        let mut i: usize = 1;
        while i < n
            invariant
                n == nodes@.len(),
                1 <= i <= n,
                low_x == Self::min_key(nodes@.subrange(0, i as int), 0),
                low_y == Self::min_key(nodes@.subrange(0, i as int), 1),
                low_z == Self::min_key(nodes@.subrange(0, i as int), 2),
                high_x == Self::max_key(nodes@.subrange(0, i as int), 0),
                high_y == Self::max_key(nodes@.subrange(0, i as int), 1),
                high_z == Self::max_key(nodes@.subrange(0, i as int), 2),
            decreases n - i,
        {
            let p = nodes[i].position;
            let ghost pre = nodes@.subrange(0, i as int);
            let ghost post = nodes@.subrange(0, i + 1);
            assert(post.drop_last() =~= pre);
            assert(post.last() == nodes@[i as int]);
            if p.x < low_x {
                low_x = p.x;
            }
            if p.y < low_y {
                low_y = p.y;
            }
            if p.z < low_z {
                low_z = p.z;
            }
            if p.x > high_x {
                high_x = p.x;
            }
            if p.y > high_y {
                high_y = p.y;
            }
            if p.z > high_z {
                high_z = p.z;
            }
            i = i + 1;
        }
        assert(nodes@.subrange(0, n as int) =~= nodes@);
        largest_axis(
            high_x as i64 - low_x as i64,
            high_y as i64 - low_y as i64,
            high_z as i64 - low_z as i64,
        )
    }

    proof fn lemma_insert_by_split(t: Seq<Node3D<'a>>, x: Node3D<'a>, axis: nat, j: int)
        requires
            0 <= j <= t.len(),
            forall|k: int| j <= k < t.len() ==> Self::key(#[trigger] t[k], axis) > Self::key(x, axis),
            j == 0 || Self::key(t[j - 1], axis) <= Self::key(x, axis),
        ensures
            Self::insert_by(t, x, axis) == t.subrange(0, j) + seq![x] + t.subrange(j, t.len() as int),
        decreases t.len(),
    {
        if t.len() == 0 {
            assert(t.subrange(0, j) + seq![x] + t.subrange(j, t.len() as int) =~= seq![x]);
        } else if Self::key(t.last(), axis) <= Self::key(x, axis) {
            assert(j == t.len());
            assert(t.subrange(0, j) + seq![x] + t.subrange(j, t.len() as int) =~= t.push(x));
        } else {
            let u = t.drop_last();
            Self::lemma_insert_by_split(u, x, axis, j);
            assert(u.subrange(0, j) =~= t.subrange(0, j));
            assert((u.subrange(0, j) + seq![x] + u.subrange(j, u.len() as int)).push(t.last())
                =~= t.subrange(0, j) + seq![x] + t.subrange(j, t.len() as int));
        }
    }

    /// Sorts the slice along `axis`, stably.
    fn sort_nodes(nodes: &mut [Node3D<'a>], axis: usize)
        ensures
            final(nodes)@ == Self::sort_by_axis(old(nodes)@, axis as nat),
    {
        let n = nodes.len();
        let ghost orig = nodes@;
        if n == 0 {
            assert(nodes@ =~= Self::sort_by_axis(orig, axis as nat));
            return ;
        }
        proof {
            let s1 = orig.subrange(0, 1);
            assert(s1.drop_last() =~= Seq::<Node3D<'a>>::empty());
            assert(Self::sort_by_axis(s1.drop_last(), axis as nat) =~= Seq::<Node3D<'a>>::empty());
            assert(Self::insert_by(Seq::<Node3D<'a>>::empty(), s1.last(), axis as nat) =~= seq![
                s1.last(),
            ]);
            assert(Self::sort_by_axis(s1, axis as nat) =~= nodes@.subrange(0, 1));
        }
        let mut i: usize = 1;
        while i < n
            invariant
                n == nodes@.len(),
                n == orig.len(),
                1 <= i <= n,
                nodes@.subrange(0, i as int) == Self::sort_by_axis(
                    orig.subrange(0, i as int),
                    axis as nat,
                ),
                nodes@.subrange(i as int, n as int) == orig.subrange(i as int, n as int),
            decreases n - i,
        {
            let ghost t = Self::sort_by_axis(orig.subrange(0, i as int), axis as nat);
            proof {
                Self::lemma_sort_len(orig.subrange(0, i as int), axis as nat);
                assert(nodes@[i as int] == nodes@.subrange(i as int, n as int)[0]);
                assert(nodes@.subrange(i + 1, n as int) =~= nodes@.subrange(i as int, n as int).subrange(1, n - i));
                assert(orig.subrange(i + 1, n as int) =~= orig.subrange(i as int, n as int).subrange(1, n - i));
                assert(nodes@.subrange(0, i as int) =~= t.subrange(0, i as int));
                assert(nodes@.subrange(i + 1, i + 1) =~= t.subrange(i as int, i as int));
            }
            let x = nodes[i].clone();
            let kx = axis_coord(x.position, axis);
            let mut j: usize = i;
            while j > 0 && axis_coord(nodes[j - 1].position, axis) > kx
                invariant
                    n == nodes@.len(),
                    n == orig.len(),
                    t.len() == i,
                    0 <= j <= i < n,
                    x == orig[i as int],
                    kx == Self::key(x, axis as nat),
                    nodes@.subrange(0, j as int) == t.subrange(0, j as int),
                    nodes@.subrange(j + 1, i + 1) == t.subrange(j as int, i as int),
                    forall|k: int|
                        j <= k < i ==> Self::key(#[trigger] t[k], axis as nat) > Self::key(
                            x,
                            axis as nat,
                        ),
                    nodes@.subrange(i + 1, n as int) == orig.subrange(i + 1, n as int),
                decreases j,
            {
                proof {
                    assert(nodes@[j - 1] == nodes@.subrange(0, j as int)[j - 1]);
                    assert(t.subrange(0, j as int)[j - 1] == t[j - 1]);
                }
                let moved = nodes[j - 1].clone();
                assert(moved == t[j - 1]);
                let ghost before = nodes@;
                nodes[j] = moved;
                proof {
                    assert(nodes@.subrange(0, j - 1) =~= before.subrange(0, j - 1));
                    assert(t.subrange(0, j - 1) =~= t.subrange(0, j as int).subrange(0, j - 1));
                    assert(nodes@[j as int] == t[j - 1]);
                    assert forall|k: int| j < k < i + 1 implies nodes@[k] == t[k - 1] by {
                        assert(nodes@[k] == before[k]);
                        assert(before[k] == before.subrange(j + 1, i + 1)[k - j - 1]);
                    }
                    assert(nodes@.subrange(j as int, i + 1) =~= t.subrange(j - 1, i as int));
                    assert(nodes@.subrange(i + 1, n as int) =~= before.subrange(i + 1, n as int));
                }
                j = j - 1;
            }
            let ghost before = nodes@;
            nodes[j] = x;
            proof {
                if j > 0 {
                    assert(nodes@[j - 1] == before.subrange(0, j as int)[j - 1]);
                }
                Self::lemma_insert_by_split(t, orig[i as int], axis as nat, j as int);
                let o1 = orig.subrange(0, i + 1);
                assert(o1.drop_last() =~= orig.subrange(0, i as int));
                assert(o1.last() == orig[i as int]);
                assert(nodes@.subrange(0, i + 1) =~= t.subrange(0, j as int) + seq![x]
                    + t.subrange(j as int, i as int));
                assert(nodes@.subrange(i + 1, n as int) =~= before.subrange(i + 1, n as int));
            }
            i = i + 1;
        }
        assert(nodes@.subrange(0, n as int) =~= nodes@);
        assert(orig.subrange(0, n as int) =~= orig);
    }

    /// Builds a k-d tree over the nodes and returns its root (`None` for no
    /// nodes). The slice is left reordered as `build` says; the subtrees the
    /// given nodes had are not used. `depth` counts the levels above; it
    /// must leave room for the levels below in a `usize`.
    pub fn construct_tree(nodes: &mut [Node3D<'a>], depth: usize) -> (r: Option<Box<Node3D<'a>>>)
        requires
            depth + build_height(old(nodes)@.len()) <= usize::MAX,
        ensures
            (final(nodes)@, r) == Self::build(old(nodes)@),
        decreases old(nodes)@.len(),
    {
        if nodes.is_empty() {
            return None;
        }
        let ghost s = nodes@;
        let axis = Self::spread_axis(nodes);
        Self::sort_nodes(nodes, axis);
        proof {
            Self::lemma_sort_len(s, axis as nat);
        }
        let ghost t = nodes@;
        let mid = nodes.len() / 2;
        let mut root = nodes[mid].clone();
        let (left, rest) = nodes.split_at_mut(mid);
        let (middle, right) = rest.split_at_mut(1);
        proof {
            lemma_build_height_monotone((t.len() - mid - 1) as nat, mid as nat);
            assert(left@ =~= t.subrange(0, mid as int));
            assert(right@ =~= t.subrange(mid + 1, t.len() as int));
        }
        root.left = Node3D::construct_tree(left, depth + 1);
        root.right = Node3D::construct_tree(right, depth + 1);
        proof {
            assert(middle@ =~= seq![t[mid as int]]);
        }
        Some(Box::new(root))
    }

    /// The better of the best so far and the node `n` at squared distance
    /// `d`: `n` wins only when strictly closer.
    pub closed spec fn improve(best: Option<(int, Node3D<'a>)>, d: int, n: Node3D<'a>) -> Option<
        (int, Node3D<'a>),
    > {
        match best {
            Some(b) => if d < b.0 {
                Some((d, n))
            } else {
                best
            },
            None => Some((d, n)),
        }
    }

    /// The search from node `n` at `depth`, given the best node found so far
    /// (with its squared distance to `target`). A node whose system is in
    /// `excl` is skipped together with its subtrees. Otherwise the node is
    /// compared with the best; then the subtree on the far side of the node
    /// along axis `depth % 3` is searched, but only if the squared distance
    /// from `target` to the node's plane is below the best distance, and
    /// after it the subtree on the near side is always searched.
    pub closed spec fn visit(
        n: Node3D<'a>,
        target: Vector3,
        excl: Set<u32>,
        depth: nat,
        best: Option<(int, Node3D<'a>)>,
    ) -> Option<(int, Node3D<'a>)>
        decreases n,
    {
        if excl.contains(n.system_id) {
            best
        } else {
            let b1 = Self::improve(best, dist_sq(target, *n.position), n);
            let bd = b1.unwrap().0;
            let axis = depth % 3;
            let diff = coord(target, axis) - coord(*n.position, axis);
            if diff < 0 {
                let b2 = if diff * diff < bd {
                    Self::visit_opt(n.right, target, excl, depth + 1, b1)
                } else {
                    b1
                };
                Self::visit_opt(n.left, target, excl, depth + 1, b2)
            } else {
                let b2 = if diff * diff < bd {
                    Self::visit_opt(n.left, target, excl, depth + 1, b1)
                } else {
                    b1
                };
                Self::visit_opt(n.right, target, excl, depth + 1, b2)
            }
        }
    }

    /// `visit` on a subtree that may be absent.
    pub closed spec fn visit_opt(
        o: Option<Box<Node3D<'a>>>,
        target: Vector3,
        excl: Set<u32>,
        depth: nat,
        best: Option<(int, Node3D<'a>)>,
    ) -> Option<(int, Node3D<'a>)>
        decreases o,
    {
        match o {
            Some(b) => Self::visit(*b, target, excl, depth, best),
            None => best,
        }
    }

    /// The node that the nearest-neighbour search from the root `n` returns.
    pub closed spec fn nearest(n: Node3D<'a>, target: Vector3, excl: Set<u32>) -> Option<Node3D<'a>> {
        match Self::visit(n, target, excl, 0, None) {
            Some(p) => Some(p.1),
            None => None,
        }
    }

    closed spec fn lift(b: Option<(i128, &Node3D<'a>)>) -> Option<(int, Node3D<'a>)> {
        match b {
            Some(p) => Some((p.0 as int, *p.1)),
            None => None,
        }
    }

    fn search<'b>(
        node: &'b Node3D<'a>,
        target: &Vector3,
        exclude: &HashSet<u32>,
        axis: usize,
        best: Option<(i128, &'b Node3D<'a>)>,
        Ghost(depth): Ghost<nat>,
    ) -> (r: Option<(i128, &'b Node3D<'a>)>)
        requires
            axis == depth % 3,
        ensures
            Self::lift(r) == Self::visit(*node, *target, exclude@, depth, Self::lift(best)),
        decreases node,
    {
        if exclude.contains(&node.system_id) {
            return best;
        }
        let d = target.distance_squared(node.position);
        let b1: Option<(i128, &'b Node3D<'a>)> = match best {
            Some(b) => if d < b.0 {
                Some((d, node))
            } else {
                best
            },
            None => Some((d, node)),
        };
        let bd: i128 = match b1 {
            Some(b) => b.0,
            None => 0,
        };
        let diff: i64 = axis_coord(target, axis) as i64 - axis_coord(node.position, axis) as i64;
        proof {
            assert(-0x1_0000_0000 < diff < 0x1_0000_0000);
            assert(0 <= diff * diff <= 0x1_0000_0000 * 0x1_0000_0000) by (nonlinear_arith)
                requires
                    -0x1_0000_0000 < diff < 0x1_0000_0000,
            ;
            assert((depth + 1) % 3 == if axis == 2 {
                0
            } else {
                axis + 1
            });
        }
        let sq: i128 = (diff as i128) * (diff as i128);
        let next_axis: usize = if axis == 2 {
            0
        } else {
            axis + 1
        };
        if diff < 0 {
            let b2 = if sq < bd {
                match &node.right {
                    Some(c) => Self::search(c, target, exclude, next_axis, b1, Ghost(depth + 1)),
                    None => b1,
                }
            } else {
                b1
            };
            match &node.left {
                Some(c) => Self::search(c, target, exclude, next_axis, b2, Ghost(depth + 1)),
                None => b2,
            }
        } else {
            let b2 = if sq < bd {
                match &node.left {
                    Some(c) => Self::search(c, target, exclude, next_axis, b1, Ghost(depth + 1)),
                    None => b1,
                }
            } else {
                b1
            };
            match &node.right {
                Some(c) => Self::search(c, target, exclude, next_axis, b2, Ghost(depth + 1)),
                None => b2,
            }
        }
    }

    /// Searches the tree below this node for the system closest to
    /// `target`, skipping the systems in `exclude_nodes` together with
    /// their subtrees, and returns a copy of the node found (see `visit`
    /// for the order of the search and when a subtree is left out).
    pub fn nearest_neighbor(&self, target: &Vector3, exclude_nodes: &HashSet<u32>) -> (r: Option<
        Node3D<'a>,
    >)
        ensures
            r == Self::nearest(*self, *target, exclude_nodes@),
    {
        let found = Self::search(self, target, exclude_nodes, 0, None, Ghost(0));
        match found {
            Some(p) => Some(p.1.clone()),
            None => None,
        }
    }

    /// Number of nodes of a tree.
    pub closed spec fn size(o: Option<Box<Node3D<'a>>>) -> nat {
        Self::in_order(o).len()
    }

    /// Every node's two subtrees differ in size by at most one, the left one
    /// being the larger when they differ.
    pub closed spec fn balanced(o: Option<Box<Node3D<'a>>>) -> bool
        decreases o,
    {
        match o {
            None => true,
            Some(b) => {
                &&& Self::size(b.left) == Self::size(b.right) || Self::size(b.left) == Self::size(
                    b.right,
                ) + 1
                &&& Self::balanced(b.left)
                &&& Self::balanced(b.right)
            },
        }
    }

    /// Along `axis`, every entry of the left subtree of `b` is at or before
    /// `b` and every entry of the right subtree at or after it.
    pub closed spec fn splits_on(b: Node3D<'a>, axis: nat) -> bool {
        &&& forall|i: int|
            0 <= i < Self::in_order(b.left).len() ==> coord(
                (#[trigger] Self::in_order(b.left)[i]).1,
                axis,
            ) <= coord(*b.position, axis)
        &&& forall|i: int|
            0 <= i < Self::in_order(b.right).len() ==> coord(
                (#[trigger] Self::in_order(b.right)[i]).1,
                axis,
            ) >= coord(*b.position, axis)
    }

    /// Every node of the tree splits its subtrees along one of the three
    /// axes.
    pub closed spec fn kd_ordered(o: Option<Box<Node3D<'a>>>) -> bool
        decreases o,
    {
        match o {
            None => true,
            Some(b) => {
                &&& exists|axis: nat| axis < 3 && #[trigger] Self::splits_on(*b, axis)
                &&& Self::kd_ordered(b.left)
                &&& Self::kd_ordered(b.right)
            },
        }
    }

    /// `t` is in nondecreasing order of the coordinate along `axis`.
    pub closed spec fn sorted_on(t: Seq<Node3D<'a>>, axis: nat) -> bool {
        forall|i: int, j: int|
            0 <= i < j < t.len() ==> Self::key(#[trigger] t[i], axis) <= Self::key(
                #[trigger] t[j],
                axis,
            )
    }

    proof fn lemma_insert_by_multiset(t: Seq<Node3D<'a>>, x: Node3D<'a>, axis: nat)
        ensures
            Self::insert_by(t, x, axis).to_multiset() == t.to_multiset().insert(x),
        decreases t.len(),
    {
        broadcast use vstd::seq_lib::group_to_multiset_ensures;
        broadcast use vstd::multiset::group_multiset_axioms;

        if t.len() == 0 {
            assert(seq![x] =~= Seq::<Node3D<'a>>::empty().push(x));
        } else if Self::key(t.last(), axis) <= Self::key(x, axis) {
        } else {
            let u = t.drop_last();
            Self::lemma_insert_by_multiset(u, x, axis);
            assert(u.push(t.last()) =~= t);
            assert(Self::insert_by(t, x, axis).to_multiset() =~= t.to_multiset().insert(x));
        }
    }

    proof fn lemma_sort_multiset(s: Seq<Node3D<'a>>, axis: nat)
        ensures
            Self::sort_by_axis(s, axis).to_multiset() == s.to_multiset(),
        decreases s.len(),
    {
        broadcast use vstd::seq_lib::group_to_multiset_ensures;

        if s.len() > 0 {
            Self::lemma_sort_multiset(s.drop_last(), axis);
            Self::lemma_insert_by_multiset(Self::sort_by_axis(s.drop_last(), axis), s.last(), axis);
            assert(s.drop_last().push(s.last()) =~= s);
        }
    }

    proof fn lemma_insert_by_sorted(t: Seq<Node3D<'a>>, x: Node3D<'a>, axis: nat)
        requires
            Self::sorted_on(t, axis),
        ensures
            Self::sorted_on(Self::insert_by(t, x, axis), axis),
        decreases t.len(),
    {
        broadcast use vstd::seq_lib::group_to_multiset_ensures;
        broadcast use vstd::multiset::group_multiset_axioms;

        if t.len() == 0 {
        } else if Self::key(t.last(), axis) <= Self::key(x, axis) {
            let r = t.push(x);
            assert forall|i: int, j: int| 0 <= i < j < r.len() implies Self::key(
                #[trigger] r[i],
                axis,
            ) <= Self::key(#[trigger] r[j], axis) by {
                if j == t.len() {
                    if i < t.len() - 1 {
                        assert(Self::key(t[i], axis) <= Self::key(t[t.len() - 1], axis));
                    }
                }
            }
        } else {
            let u = t.drop_last();
            let y = t.last();
            assert(Self::sorted_on(u, axis));
            Self::lemma_insert_by_sorted(u, x, axis);
            Self::lemma_insert_by_multiset(u, x, axis);
            Self::lemma_insert_by_len(u, x, axis);
            let v = Self::insert_by(u, x, axis);
            let r = v.push(y);
            assert forall|k: int| 0 <= k < v.len() implies Self::key(#[trigger] v[k], axis)
                <= Self::key(y, axis) by {
                assert(v.contains(v[k]));
                assert(v.to_multiset().count(v[k]) > 0);
                if v[k] != x {
                    assert(u.to_multiset().count(v[k]) > 0);
                    assert(u.contains(v[k]));
                    let m = choose|m: int| 0 <= m < u.len() && u[m] == v[k];
                    assert(t[m] == u[m]);
                }
            }
            assert forall|i: int, j: int| 0 <= i < j < r.len() implies Self::key(
                #[trigger] r[i],
                axis,
            ) <= Self::key(#[trigger] r[j], axis) by {
                if j == v.len() {
                    assert(r[i] == v[i]);
                } else {
                    assert(r[i] == v[i] && r[j] == v[j]);
                }
            }
        }
    }

    proof fn lemma_sort_sorted(s: Seq<Node3D<'a>>, axis: nat)
        ensures
            Self::sorted_on(Self::sort_by_axis(s, axis), axis),
        decreases s.len(),
    {
        if s.len() > 0 {
            Self::lemma_sort_sorted(s.drop_last(), axis);
            Self::lemma_insert_by_sorted(Self::sort_by_axis(s.drop_last(), axis), s.last(), axis);
        }
    }

    proof fn lemma_entries_concat(a: Seq<Node3D<'a>>, b: Seq<Node3D<'a>>)
        ensures
            Self::entries(a + b) == Self::entries(a) + Self::entries(b),
    {
        assert(Self::entries(a + b) =~= Self::entries(a) + Self::entries(b));
    }

    /// Everything the laws of building state, proved together by induction.
    proof fn lemma_build(s: Seq<Node3D<'a>>)
        ensures
            Self::build(s).0.len() == s.len(),
            Self::build(s).0.to_multiset() == s.to_multiset(),
            Self::in_order(Self::build(s).1) == Self::entries(Self::build(s).0),
            Self::balanced(Self::build(s).1),
            Self::kd_ordered(Self::build(s).1),
            Self::build(s).1 is None <==> s.len() == 0,
            s.len() > 0 ==> ({
                let a = Self::split_axis(s);
                let t = Self::sort_by_axis(s, a);
                let mid = s.len() / 2;
                let root = *Self::build(s).1.unwrap();
                &&& Self::entry(root) == Self::entry(t[mid as int])
                &&& root.left == Self::build(t.subrange(0, mid as int)).1
                &&& root.right == Self::build(t.subrange(mid as int + 1, s.len() as int)).1
                &&& Self::splits_on(root, a)
                &&& Self::size(root.left) == mid
                &&& Self::size(root.right) == s.len() - mid - 1
            }),
        decreases s.len(),
    {
        broadcast use vstd::seq_lib::group_to_multiset_ensures;
        broadcast use vstd::multiset::group_multiset_axioms;
        broadcast use lemma_multiset_commutative;

        if s.len() == 0 {
            assert(Self::entries(s) =~= Seq::<(u32, Vector3)>::empty());
        } else {
            let axis = Self::split_axis(s);
            let t = Self::sort_by_axis(s, axis);
            Self::lemma_sort_len(s, axis);
            Self::lemma_sort_multiset(s, axis);
            Self::lemma_sort_sorted(s, axis);
            let n = s.len();
            let mid = n / 2;
            let tl = t.subrange(0, mid as int);
            let tr = t.subrange(mid as int + 1, n as int);
            Self::lemma_build(tl);
            Self::lemma_build(tr);
            let l = Self::build(tl);
            let r = Self::build(tr);
            let res = Self::build(s);
            let root = *res.1.unwrap();
            assert(res.0 == l.0 + seq![t[mid as int]] + r.0);
            assert(root.left == l.1 && root.right == r.1);
            assert(Self::entry(root) == Self::entry(t[mid as int]));
            // multiset
            assert(t =~= tl + seq![t[mid as int]] + tr);
            assert(res.0.to_multiset() =~= s.to_multiset());
            // in order
            Self::lemma_entries_concat(l.0 + seq![t[mid as int]], r.0);
            Self::lemma_entries_concat(l.0, seq![t[mid as int]]);
            assert(Self::entries(seq![t[mid as int]]) =~= seq![Self::entry(t[mid as int])]);
            assert(Self::in_order(res.1) =~= Self::entries(res.0));
            // balanced
            assert(Self::size(root.left) == mid);
            assert(Self::size(root.right) == n - mid - 1);
            // kd order
            assert forall|i: int| 0 <= i < Self::in_order(root.left).len() implies coord(
                (#[trigger] Self::in_order(root.left)[i]).1,
                axis,
            ) <= coord(*root.position, axis) by {
                let e = l.0[i];
                assert(Self::in_order(root.left)[i] == Self::entry(e));
                assert(l.0.contains(e));
                assert(l.0.to_multiset().count(e) > 0);
                assert(tl.contains(e));
                let k = choose|k: int| 0 <= k < tl.len() && tl[k] == e;
                assert(t[k] == e);
                assert(Self::key(t[k], axis) <= Self::key(t[mid as int], axis));
            }
            assert forall|i: int| 0 <= i < Self::in_order(root.right).len() implies coord(
                (#[trigger] Self::in_order(root.right)[i]).1,
                axis,
            ) >= coord(*root.position, axis) by {
                let e = r.0[i];
                assert(Self::in_order(root.right)[i] == Self::entry(e));
                assert(r.0.contains(e));
                assert(r.0.to_multiset().count(e) > 0);
                assert(tr.contains(e));
                let k = choose|k: int| 0 <= k < tr.len() && tr[k] == e;
                assert(t[mid as int + 1 + k] == e);
                assert(Self::key(t[mid as int], axis) <= Self::key(t[mid as int + 1 + k], axis));
            }
            assert(axis < 3);
            assert(Self::splits_on(root, axis));
        }
    }

    proof fn lemma_key_bounds(s: Seq<Node3D<'a>>, axis: nat)
        requires
            s.len() > 0,
        ensures
            forall|i: int|
                0 <= i < s.len() ==> Self::min_key(s, axis) <= #[trigger] Self::key(s[i], axis)
                    <= Self::max_key(s, axis),
            exists|i: int| 0 <= i < s.len() && #[trigger] Self::key(s[i], axis) == Self::min_key(s, axis),
            exists|i: int| 0 <= i < s.len() && #[trigger] Self::key(s[i], axis) == Self::max_key(s, axis),
        decreases s.len(),
    {
        if s.len() <= 1 {
            assert(Self::key(s[0], axis) == Self::min_key(s, axis));
        } else {
            let u = s.drop_last();
            Self::lemma_key_bounds(u, axis);
            assert forall|i: int| 0 <= i < s.len() implies Self::min_key(s, axis) <= #[trigger] Self::key(
                s[i],
                axis,
            ) <= Self::max_key(s, axis) by {
                if i < u.len() {
                    assert(s[i] == u[i]);
                }
            }
            let i = choose|i: int| 0 <= i < u.len() && #[trigger] Self::key(u[i], axis) == Self::min_key(u, axis);
            let j = choose|j: int| 0 <= j < u.len() && #[trigger] Self::key(u[j], axis) == Self::max_key(u, axis);
            assert(s[i] == u[i] && s[j] == u[j]);
            let l = s.len() - 1;
            assert(Self::key(s[l], axis) == Self::key(s.last(), axis));
        }
    }

    /// The best entry so far is a kept node, with its true squared distance.
    pub closed spec fn best_ok(b: Option<(int, Node3D<'a>)>, target: Vector3, excl: Set<u32>) -> bool {
        b matches Some(q) ==> !excl.contains(q.1.system_id) && q.0 == dist_sq(
            target,
            *q.1.position,
        )
    }

    proof fn lemma_in_order_parts(b: Node3D<'a>)
        ensures
            forall|x: (u32, Vector3)| #[trigger]
                Self::in_order(b.left).contains(x) ==> Self::in_order(Some(Box::new(b))).contains(
                    x,
                ),
            forall|x: (u32, Vector3)| #[trigger]
                Self::in_order(b.right).contains(x) ==> Self::in_order(
                    Some(Box::new(b)),
                ).contains(x),
            Self::in_order(Some(Box::new(b))).contains(Self::entry(b)),
    {
        let all = Self::in_order(Some(Box::new(b)));
        let l = Self::in_order(b.left);
        let r = Self::in_order(b.right);
        assert(all == l + seq![Self::entry(b)] + r);
        assert forall|x: (u32, Vector3)| #[trigger] l.contains(x) implies all.contains(x) by {
            let i = choose|i: int| 0 <= i < l.len() && l[i] == x;
            assert(all[i] == x);
        }
        assert forall|x: (u32, Vector3)| #[trigger] r.contains(x) implies all.contains(x) by {
            let i = choose|i: int| 0 <= i < r.len() && r[i] == x;
            assert(all[l.len() + 1 + i] == x);
        }
        assert(all[l.len() as int] == Self::entry(b));
    }

    proof fn lemma_visit(
        n: Node3D<'a>,
        target: Vector3,
        excl: Set<u32>,
        depth: nat,
        best: Option<(int, Node3D<'a>)>,
    )
        requires
            Self::best_ok(best, target, excl),
        ensures
            ({
                let r = Self::visit(n, target, excl, depth, best);
                &&& Self::best_ok(r, target, excl)
                &&& best is Some ==> r is Some
                &&& best is None ==> (r is Some <==> !excl.contains(n.system_id))
                &&& r matches Some(p) ==> (best matches Some(q) ==> p.0 <= q.0)
                &&& r matches Some(p) ==> (r == best || Self::in_order(Some(Box::new(n))).contains(
                    Self::entry(p.1),
                ))
                &&& !excl.contains(n.system_id) ==> r.unwrap().0 <= dist_sq(target, *n.position)
            }),
        decreases n,
    {
        Self::lemma_in_order_parts(n);
        if !excl.contains(n.system_id) {
            let b1 = Self::improve(best, dist_sq(target, *n.position), n);
            let bd = b1.unwrap().0;
            let axis = depth % 3;
            let diff = coord(target, axis) - coord(*n.position, axis);
            let (near, far) = if diff < 0 {
                (n.left, n.right)
            } else {
                (n.right, n.left)
            };
            Self::lemma_visit_opt(far, target, excl, depth + 1, b1);
            let b2 = if diff * diff < bd {
                Self::visit_opt(far, target, excl, depth + 1, b1)
            } else {
                b1
            };
            Self::lemma_visit_opt(near, target, excl, depth + 1, b2);
        }
    }

    proof fn lemma_visit_opt(
        o: Option<Box<Node3D<'a>>>,
        target: Vector3,
        excl: Set<u32>,
        depth: nat,
        best: Option<(int, Node3D<'a>)>,
    )
        requires
            Self::best_ok(best, target, excl),
            best is Some,
        ensures
            ({
                let r = Self::visit_opt(o, target, excl, depth, best);
                &&& Self::best_ok(r, target, excl)
                &&& r is Some
                &&& r.unwrap().0 <= best.unwrap().0
                &&& (r == best || Self::in_order(o).contains(Self::entry(r.unwrap().1)))
            }),
        decreases o,
    {
        match o {
            Some(b) => {
                Self::lemma_visit(*b, target, excl, depth, best);
            },
            None => {},
        }
    }

    /// Every node of the tree rooted at depth `depth` splits its subtrees
    /// along axis `(its depth) % 3`, the axis the search compares on.
    pub closed spec fn splits_by_depth(o: Option<Box<Node3D<'a>>>, depth: nat) -> bool
        decreases o,
    {
        match o {
            None => true,
            Some(b) => {
                &&& Self::splits_on(*b, depth % 3)
                &&& Self::splits_by_depth(b.left, depth + 1)
                &&& Self::splits_by_depth(b.right, depth + 1)
            },
        }
    }

    proof fn lemma_axis_gap(t: Vector3, p: Vector3, q: Vector3, axis: nat)
        requires
            axis < 3,
            coord(t, axis) - coord(p, axis) < 0 ==> coord(q, axis) >= coord(p, axis),
            coord(t, axis) - coord(p, axis) >= 0 ==> coord(q, axis) <= coord(p, axis),
        ensures
            dist_sq(t, q) >= (coord(t, axis) - coord(p, axis)) * (coord(t, axis) - coord(p, axis)),
    {
        let d = coord(t, axis) - coord(p, axis);
        let e = coord(t, axis) - coord(q, axis);
        assert(e * e >= d * d) by (nonlinear_arith)
            requires
                d < 0 ==> e <= d,
                d >= 0 ==> e >= d,
        ;
        let dx = t.x - q.x;
        let dy = t.y - q.y;
        let dz = t.z - q.z;
        assert(dx * dx >= 0 && dy * dy >= 0 && dz * dz >= 0) by (nonlinear_arith);
    }

    proof fn lemma_visit_closest(
        n: Node3D<'a>,
        target: Vector3,
        depth: nat,
        best: Option<(int, Node3D<'a>)>,
    )
        requires
            Self::best_ok(best, target, Set::empty()),
            Self::splits_by_depth(Some(Box::new(n)), depth),
        ensures
            ({
                let r = Self::visit(n, target, Set::empty(), depth, best);
                let all = Self::in_order(Some(Box::new(n)));
                &&& r is Some
                &&& forall|i: int| 0 <= i < all.len() ==> r.unwrap().0 <= dist_sq(target, (#[trigger] all[i]).1)
            }),
        decreases n,
    {
        let excl = Set::<u32>::empty();
        Self::lemma_visit(n, target, excl, depth, best);
        let b1 = Self::improve(best, dist_sq(target, *n.position), n);
        let bd = b1.unwrap().0;
        let axis = depth % 3;
        let diff = coord(target, axis) - coord(*n.position, axis);
        let (near, far) = if diff < 0 {
            (n.left, n.right)
        } else {
            (n.right, n.left)
        };
        assert(Self::best_ok(b1, target, excl));
        Self::lemma_visit_opt(far, target, excl, depth + 1, b1);
        Self::lemma_visit_closest_opt(far, target, depth + 1, b1);
        let b2 = if diff * diff < bd {
            Self::visit_opt(far, target, excl, depth + 1, b1)
        } else {
            b1
        };
        Self::lemma_visit_opt(near, target, excl, depth + 1, b2);
        Self::lemma_visit_closest_opt(near, target, depth + 1, b2);
        let r = Self::visit(n, target, excl, depth, best);
        assert(r == Self::visit_opt(near, target, excl, depth + 1, b2));
        let fe = Self::in_order(far);
        let ne = Self::in_order(near);
        assert forall|i: int| 0 <= i < fe.len() implies b2.unwrap().0 <= dist_sq(
            target,
            (#[trigger] fe[i]).1,
        ) by {
            if !(diff * diff < bd) {
                Self::lemma_axis_gap(target, *n.position, fe[i].1, axis);
            }
        }
        let all = Self::in_order(Some(Box::new(n)));
        let l = Self::in_order(n.left);
        let rt = Self::in_order(n.right);
        assert(all == l + seq![Self::entry(n)] + rt);
        assert forall|i: int| 0 <= i < all.len() implies r.unwrap().0 <= dist_sq(
            target,
            (#[trigger] all[i]).1,
        ) by {
            if i < l.len() {
                assert(all[i] == l[i]);
                if diff < 0 {
                    assert(ne[i] == l[i]);
                } else {
                    assert(fe[i] == l[i]);
                }
            } else if i == l.len() {
                assert(all[i] == Self::entry(n));
            } else {
                let j = i - l.len() - 1;
                assert(all[i] == rt[j]);
                if diff < 0 {
                    assert(fe[j] == rt[j]);
                } else {
                    assert(ne[j] == rt[j]);
                }
            }
        }
    }

    proof fn lemma_visit_closest_opt(
        o: Option<Box<Node3D<'a>>>,
        target: Vector3,
        depth: nat,
        best: Option<(int, Node3D<'a>)>,
    )
        requires
            Self::best_ok(best, target, Set::empty()),
            best is Some,
            Self::splits_by_depth(o, depth),
        ensures
            ({
                let r = Self::visit_opt(o, target, Set::empty(), depth, best);
                let all = Self::in_order(o);
                &&& r is Some
                &&& forall|i: int| 0 <= i < all.len() ==> r.unwrap().0 <= dist_sq(target, (#[trigger] all[i]).1)
            }),
        decreases o,
    {
        match o {
            Some(b) => {
                Self::lemma_visit_closest(*b, target, depth, best);
            },
            None => {},
        }
    }
}

/// Building a tree keeps every node: the reordered slice holds the same
/// nodes as before, as many times each.
pub proof fn law_build_permutes<'a>(s: Seq<Node3D<'a>>)
    ensures
        Node3D::build(s).0.to_multiset() == s.to_multiset(),
{
    Node3D::lemma_build(s);
}

/// The tree lists, left to right, exactly the systems and positions of the
/// reordered slice, so it holds every given node once; it is empty exactly
/// when no node was given.
pub proof fn law_build_in_order<'a>(s: Seq<Node3D<'a>>)
    ensures
        Node3D::in_order(Node3D::build(s).1) == Node3D::entries(Node3D::build(s).0),
        Node3D::size(Node3D::build(s).1) == s.len(),
        Node3D::build(s).1 is None <==> s.len() == 0,
{
    Node3D::lemma_build(s);
}

/// The tree is balanced: at every node the two subtrees differ in size by
/// at most one.
pub proof fn law_build_balanced<'a>(s: Seq<Node3D<'a>>)
    ensures
        Node3D::balanced(Node3D::build(s).1),
{
    Node3D::lemma_build(s);
}

/// The tree is a k-d tree: at every node, along some axis, the left subtree
/// lies at or before the node and the right subtree at or after it.
pub proof fn law_build_kd_ordered<'a>(s: Seq<Node3D<'a>>)
    ensures
        Node3D::kd_ordered(Node3D::build(s).1),
{
    Node3D::lemma_build(s);
}

/// The search returns a node exactly when the root's own system is not
/// excluded.
pub proof fn law_nearest_found_iff_root_kept<'a>(n: Node3D<'a>, target: Vector3, excl: Set<u32>)
    ensures
        Node3D::nearest(n, target, excl) is Some <==> !excl.contains(n.spec_system_id()),
{
    Node3D::lemma_visit(n, target, excl, 0, None);
}

/// A node returned by the search is a node of the tree, its system is not
/// excluded, and it is no farther from the target than the root.
pub proof fn law_nearest_kept_and_no_farther<'a>(n: Node3D<'a>, target: Vector3, excl: Set<u32>)
    ensures
        Node3D::nearest(n, target, excl) matches Some(m) ==> {
            &&& !excl.contains(m.spec_system_id())
            &&& Node3D::in_order(Some(Box::new(n))).contains(Node3D::entry(m))
            &&& dist_sq(target, m.spec_position()) <= dist_sq(target, n.spec_position())
        },
{
    Node3D::lemma_visit(n, target, excl, 0, None);
}

/// How a tree is built over nonempty `s`: the axis chosen is the one along
/// which the coordinates of `s` spread the widest (the largest of
/// `max_key - min_key`, a tie going to the later axis, but x over y only
/// when strictly wider); the nodes sorted along it (a reordering of `s`)
/// give the root at their middle index `len / 2`; the root splits its
/// subtrees along that axis, the left one holding the `len / 2` nodes
/// before the middle and the right one the rest; and each subtree is built
/// in the same way from its part, so every node of the tree is the median
/// of its subtree along that subtree's widest axis.
pub proof fn law_build_splits_widest_at_median<'a>(s: Seq<Node3D<'a>>)
    requires
        s.len() > 0,
    ensures
        ({
            let a = Node3D::split_axis(s);
            let t = Node3D::sort_by_axis(s, a);
            let mid = s.len() / 2;
            let root = *Node3D::build(s).1.unwrap();
            &&& Node3D::build(s).1 is Some
            &&& a == largest_axis_of(
                Node3D::max_key(s, 0) - Node3D::min_key(s, 0),
                Node3D::max_key(s, 1) - Node3D::min_key(s, 1),
                Node3D::max_key(s, 2) - Node3D::min_key(s, 2),
            )
            &&& t.to_multiset() == s.to_multiset()
            &&& Node3D::sorted_on(t, a)
            &&& Node3D::entry(root) == Node3D::entry(t[mid as int])
            &&& Node3D::splits_on(root, a)
            &&& Node3D::size(root.spec_left()) == mid
            &&& Node3D::size(root.spec_right()) == s.len() - mid - 1
            &&& root.spec_left() == Node3D::build(t.subrange(0, mid as int)).1
            &&& root.spec_right() == Node3D::build(t.subrange(mid as int + 1, s.len() as int)).1
        }),
{
    let a = Node3D::split_axis(s);
    Node3D::lemma_build(s);
    Node3D::lemma_sort_multiset(s, a);
    Node3D::lemma_sort_sorted(s, a);
    Node3D::lemma_sort_len(s, a);
}

/// `min_key` and `max_key` are the least and the greatest coordinate along
/// the axis among the nodes of nonempty `s`.
pub proof fn law_key_bounds<'a>(s: Seq<Node3D<'a>>, axis: nat)
    requires
        s.len() > 0,
    ensures
        forall|i: int|
            0 <= i < s.len() ==> Node3D::min_key(s, axis) <= #[trigger] Node3D::key(s[i], axis)
                <= Node3D::max_key(s, axis),
        exists|i: int| 0 <= i < s.len() && #[trigger] Node3D::key(s[i], axis) == Node3D::min_key(s, axis),
        exists|i: int| 0 <= i < s.len() && #[trigger] Node3D::key(s[i], axis) == Node3D::max_key(s, axis),
{
    Node3D::lemma_key_bounds(s, axis);
}

/// The axis a tree is split along is one of widest spread: along no axis
/// do the coordinates of nonempty `s` spread wider.
pub proof fn law_split_axis_widest<'a>(s: Seq<Node3D<'a>>)
    requires
        s.len() > 0,
    ensures
        Node3D::split_axis(s) < 3,
        forall|k: nat|
            k < 3 ==> Node3D::max_key(s, Node3D::split_axis(s)) - Node3D::min_key(
                s,
                Node3D::split_axis(s),
            ) >= #[trigger] Node3D::max_key(s, k) - Node3D::min_key(s, k),
{
    let dx = Node3D::max_key(s, 0) - Node3D::min_key(s, 0);
    let dy = Node3D::max_key(s, 1) - Node3D::min_key(s, 1);
    let dz = Node3D::max_key(s, 2) - Node3D::min_key(s, 2);
    law_largest_axis_is_largest(dx, dy, dz);
    assert(Node3D::split_axis(s) == largest_axis_of(dx, dy, dz));
}

/// On a tree whose every node splits its subtrees along the axis its
/// depth gives (`depth % 3`, the axis the search compares on), the search
/// with nothing excluded returns a node of the tree at least as close to
/// the target as every node of the tree: a subtree is left out only when
/// the target is at least as far from the splitting plane as the best node
/// found.
pub proof fn law_nearest_is_closest_on_depth_split_tree<'a>(n: Node3D<'a>, target: Vector3)
    requires
        Node3D::splits_by_depth(Some(Box::new(n)), 0),
    ensures
        Node3D::nearest(n, target, Set::empty()) matches Some(m) && {
            &&& Node3D::in_order(Some(Box::new(n))).contains(Node3D::entry(m))
            &&& forall|i: int|
                0 <= i < Node3D::in_order(Some(Box::new(n))).len() ==> dist_sq(target, m.spec_position())
                    <= dist_sq(target, (#[trigger] Node3D::in_order(Some(Box::new(n)))[i]).1)
        },
{
    Node3D::lemma_visit(n, target, Set::empty(), 0, None);
    Node3D::lemma_visit_closest(n, target, 0, None);
}

} // verus!
