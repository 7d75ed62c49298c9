use crate::aabb::{
    Aabb, lemma_contains_trans, lemma_surrounding_box_contains, surrounding_box, union_box,
};
use crate::random::random_below;
use vstd::prelude::*;

verus! {

/// Index of a node in the tree's arena.
#[derive(Clone, Copy, Debug, PartialEq, Eq, Structural)]
pub struct NodeId {
    pub index: usize,
}

/// A node of the hierarchy: a leaf holds one primitive (by its index in the
/// scene's list); an inner node holds two children and the union of their boxes.
#[derive(Clone, Copy, Debug)]
pub struct BvhNode {
    pub left: Option<NodeId>,
    pub right: Option<NodeId>,
    pub aabb: Aabb,
    pub item: Option<usize>,
}

/// A bounding volume hierarchy over the primitives `0..item_boxes.len()`,
/// stored as an arena of nodes. Children are always stored before their parent.
#[derive(Debug)]
pub struct BvhTree {
    pub nodes: Vec<BvhNode>,
    pub root: Option<NodeId>,
    pub item_boxes: Vec<Aabb>,
}

/// Why a hierarchy could not be built.
#[derive(Clone, Copy, Debug, PartialEq, Eq, Structural)]
pub enum BuildError {
    /// The primitive at this index has no bounding box.
    MissingBoundingBox(usize),
}

/// Node `i` is a leaf over a primitive with that primitive's box, or an inner
/// node whose two children come earlier and whose box is the union of theirs.
pub open spec fn node_ok(nodes: Seq<BvhNode>, i: int, boxes: Seq<Aabb>) -> bool {
    let n = nodes[i];
    match n.item {
        Some(p) => p < boxes.len() && n.left is None && n.right is None && n.aabb == boxes[p as int],
        None => {
            &&& n.left is Some
            &&& n.right is Some
            &&& n.left->0.index < i
            &&& n.right->0.index < i
            &&& n.aabb == union_box(
                nodes[n.left->0.index as int].aabb,
                nodes[n.right->0.index as int].aabb,
            )
        },
    }
}

pub open spec fn nodes_ok(nodes: Seq<BvhNode>, boxes: Seq<Aabb>) -> bool {
    forall|i: int| 0 <= i < nodes.len() ==> #[trigger] node_ok(nodes, i, boxes)
}

/// The primitives held by the leaves below node `i`.
pub open spec fn subtree_items(nodes: Seq<BvhNode>, i: int) -> Set<int>
    decreases i,
{
    if 0 <= i < nodes.len() {
        let n = nodes[i];
        match n.item {
            Some(p) => set![p as int],
            None => match (n.left, n.right) {
                (Some(l), Some(r)) => if l.index < i && r.index < i {
                    subtree_items(nodes, l.index as int).union(
                        subtree_items(nodes, r.index as int),
                    )
                } else {
                    Set::empty()
                },
                _ => Set::empty(),
            },
        }
    } else {
        Set::empty()
    }
}

/// The primitives of the leaves below node `i`, from left to right.
pub open spec fn leaf_order(nodes: Seq<BvhNode>, i: int) -> Seq<int>
    decreases i,
{
    if 0 <= i < nodes.len() {
        let n = nodes[i];
        match n.item {
            Some(p) => seq![p as int],
            None => match (n.left, n.right) {
                (Some(l), Some(r)) => if l.index < i && r.index < i {
                    leaf_order(nodes, l.index as int) + leaf_order(nodes, r.index as int)
                } else {
                    Seq::empty()
                },
                _ => Seq::empty(),
            },
        }
    } else {
        Seq::empty()
    }
}

/// Every primitive in the leaf order of a node is below it.
pub proof fn lemma_leaf_order_items(nodes: Seq<BvhNode>, i: int, k: int)
    requires
        0 <= k < leaf_order(nodes, i).len(),
    ensures
        subtree_items(nodes, i).contains(leaf_order(nodes, i)[k]),
    decreases i,
{
    let n = nodes[i];
    if n.item is None {
        let l = n.left->0.index as int;
        let r = n.right->0.index as int;
        let lo = leaf_order(nodes, l);
        if k < lo.len() {
            lemma_leaf_order_items(nodes, l, k);
        } else {
            lemma_leaf_order_items(nodes, r, k - lo.len());
        }
    }
}

/// The number of leaves below node `i`.
pub open spec fn leaf_count(nodes: Seq<BvhNode>, i: int) -> nat
    decreases i,
{
    if 0 <= i < nodes.len() {
        let n = nodes[i];
        match n.item {
            Some(_) => 1,
            None => match (n.left, n.right) {
                (Some(l), Some(r)) => if l.index < i && r.index < i {
                    leaf_count(nodes, l.index as int) + leaf_count(nodes, r.index as int)
                } else {
                    0
                },
                _ => 0,
            },
        }
    } else {
        0
    }
}

/// The primitives `0..n`.
pub open spec fn all_items(n: int) -> Set<int> {
    Set::new(|p: int| 0 <= p < n)
}

/// The values found at positions `lo..hi` of `s`.
pub open spec fn range_items(s: Seq<usize>, lo: int, hi: int) -> Set<int> {
    Set::new(|p: int| exists|k: int| lo <= k < hi && s[k] as int == p)
}

/// Along `axis`, no primitive of `a` has its box start after the box of a
/// primitive of `b`.
pub open spec fn separated_on(boxes: Seq<Aabb>, a: Set<int>, b: Set<int>, axis: int) -> bool {
    forall|p: int, q: int|
        #[trigger] a.contains(p) && #[trigger] b.contains(q) ==> boxes[p].min.at(axis)
            <= boxes[q].min.at(axis)
}

/// Inner node `i` split its primitives, sorted along one of the three axes,
/// at the midpoint: its children are separated along that axis, and the left
/// one holds half of its leaves, rounded down.
pub open spec fn split_ok(nodes: Seq<BvhNode>, i: int, boxes: Seq<Aabb>) -> bool {
    let n = nodes[i];
    n.item is None ==> {
        &&& exists|axis: int|
            0 <= axis < 3 && #[trigger] separated_on(
                boxes,
                subtree_items(nodes, n.left->0.index as int),
                subtree_items(nodes, n.right->0.index as int),
                axis,
            )
        &&& leaf_count(nodes, n.left->0.index as int) == leaf_count(nodes, i) / 2
    }
}

pub open spec fn splits_ok(nodes: Seq<BvhNode>, boxes: Seq<Aabb>) -> bool {
    forall|i: int| 0 <= i < nodes.len() ==> #[trigger] split_ok(nodes, i, boxes)
}

impl BvhTree {
    /// Every node is well formed, every inner node splits its primitives
    /// along one axis, and the leaves below the root hold each primitive of
    /// the scene; an empty scene has no root.
    pub open spec fn wf(self) -> bool {
        &&& nodes_ok(self.nodes@, self.item_boxes@)
        &&& splits_ok(self.nodes@, self.item_boxes@)
        &&& match self.root {
            None => self.item_boxes@.len() == 0,
            Some(r) => {
                &&& r.index < self.nodes@.len()
                &&& subtree_items(self.nodes@, r.index as int) == all_items(
                    self.item_boxes@.len() as int,
                )
                &&& leaf_count(self.nodes@, r.index as int) == self.item_boxes@.len()
            },
        }
    }
}

/// Items below a node do not change when nodes are appended to the arena.
proof fn lemma_subtree_items_prefix(a: Seq<BvhNode>, b: Seq<BvhNode>, i: int)
    requires
        0 <= i < a.len() <= b.len(),
        forall|j: int| 0 <= j < a.len() ==> a[j] == b[j],
    ensures
        subtree_items(a, i) == subtree_items(b, i),
        leaf_count(a, i) == leaf_count(b, i),
    decreases i,
{
    let n = a[i];
    if n.item is None {
        if let (Some(l), Some(r)) = (n.left, n.right) {
            if l.index < i && r.index < i {
                lemma_subtree_items_prefix(a, b, l.index as int);
                lemma_subtree_items_prefix(a, b, r.index as int);
            }
        }
    }
}

/// Appending nodes keeps the split of every earlier node.
proof fn lemma_splits_preserved(a: Seq<BvhNode>, b: Seq<BvhNode>, boxes: Seq<Aabb>)
    requires
        a.len() <= b.len(),
        forall|j: int| 0 <= j < a.len() ==> a[j] == b[j],
        nodes_ok(a, boxes),
        splits_ok(a, boxes),
    ensures
        forall|i: int| 0 <= i < a.len() ==> #[trigger] split_ok(b, i, boxes),
{
    assert forall|i: int| 0 <= i < a.len() implies #[trigger] split_ok(b, i, boxes) by {
        assert(node_ok(a, i, boxes));
        assert(split_ok(a, i, boxes));
        let n = a[i];
        if n.item is None {
            let l = n.left->0.index as int;
            let r = n.right->0.index as int;
            lemma_subtree_items_prefix(a, b, l);
            lemma_subtree_items_prefix(a, b, r);
            let axis = choose|axis: int|
                0 <= axis < 3 && #[trigger] separated_on(
                    boxes,
                    subtree_items(a, l),
                    subtree_items(a, r),
                    axis,
                );
            assert(separated_on(boxes, subtree_items(b, l), subtree_items(b, r), axis));
            lemma_subtree_items_prefix(a, b, i);
        }
    }
}

/// The box of a node contains the box of every primitive below it.
pub proof fn lemma_node_box_contains_items(nodes: Seq<BvhNode>, boxes: Seq<Aabb>, i: int, p: int)
    requires
        nodes_ok(nodes, boxes),
        0 <= i < nodes.len(),
        subtree_items(nodes, i).contains(p),
    ensures
        0 <= p < boxes.len(),
        nodes[i].aabb.contains(boxes[p]),
    decreases i,
{
    assert(node_ok(nodes, i, boxes));
    let n = nodes[i];
    if n.item is None {
        let l = n.left->0.index as int;
        let r = n.right->0.index as int;
        lemma_surrounding_box_contains(nodes[l].aabb, nodes[r].aabb);
        if subtree_items(nodes, l).contains(p) {
            lemma_node_box_contains_items(nodes, boxes, l, p);
            lemma_contains_trans(n.aabb, nodes[l].aabb, boxes[p]);
        } else {
            lemma_node_box_contains_items(nodes, boxes, r, p);
            lemma_contains_trans(n.aabb, nodes[r].aabb, boxes[p]);
        }
    }
}

/// Lower corner of primitive `i`'s box along `axis`.
fn min_along(boxes: &Vec<Aabb>, i: usize, axis: usize) -> (r: i32)
    requires
        i < boxes.len(),
        axis < 3,
    ensures
        r == boxes@[i as int].min.at(axis as int),
{
    boxes[i].min.get(axis)
}

/// Relies on `slice::sort_by_key`: the positions `lo..hi` end up holding the
/// same values, ordered by the lower corner of their boxes along `axis`; the
/// sort is stable, so values with equal keys keep their relative order.
#[verifier::external_body]
fn sort_range_by_min(order: &mut Vec<usize>, lo: usize, hi: usize, boxes: &Vec<Aabb>, axis: usize)
    requires
        lo <= hi <= old(order).len(),
        forall|k: int| lo <= k < hi ==> old(order)@[k] < boxes.len(),
        axis < 3,
    ensures
        final(order)@.len() == old(order)@.len(),
        forall|k: int|
            0 <= k < old(order)@.len() && !(lo <= k < hi) ==> final(order)@[k] == old(order)@[k],
        final(order)@.subrange(lo as int, hi as int).to_multiset() == old(order)@.subrange(
            lo as int,
            hi as int,
        ).to_multiset(),
        forall|j: int, k: int|
            lo <= j <= k < hi ==> boxes@[final(order)@[j] as int].min.at(axis as int)
                <= boxes@[final(order)@[k] as int].min.at(axis as int),
        (forall|a: int, b: int| lo <= a < b < hi ==> old(order)@[a] != old(order)@[b]) ==> forall|
            j: int,
            k: int,
        |
            lo <= j < k < hi && boxes@[final(order)@[j] as int].min.at(axis as int)
                == boxes@[final(order)@[k] as int].min.at(axis as int) ==> exists|a: int, b: int|
                lo <= a < b < hi && old(order)@[a] == final(order)@[j]
                    && old(order)@[b] == final(order)@[k],
{
    order[lo..hi].sort_by_key(|i| min_along(boxes, *i, axis));
}

/// The values of a range are those of its two halves.
proof fn lemma_range_split(s: Seq<usize>, lo: int, mid: int, hi: int)
    requires
        lo <= mid <= hi,
    ensures
        range_items(s, lo, hi) == range_items(s, lo, mid).union(range_items(s, mid, hi)),
{
    assert forall|p: int|
        range_items(s, lo, hi).contains(p) <==> range_items(s, lo, mid).union(
            range_items(s, mid, hi),
        ).contains(p) by {
        if range_items(s, lo, hi).contains(p) {
            let k = choose|k: int| lo <= k < hi && s[k] as int == p;
            if k < mid {
                assert(range_items(s, lo, mid).contains(p));
            } else {
                assert(range_items(s, mid, hi).contains(p));
            }
        }
    }
    assert(range_items(s, lo, hi) =~= range_items(s, lo, mid).union(range_items(s, mid, hi)));
}

/// Two ranges holding the same multiset hold the same values.
proof fn lemma_same_multiset_same_items(a: Seq<usize>, b: Seq<usize>, lo: int, hi: int)
    requires
        0 <= lo <= hi <= a.len(),
        hi <= b.len(),
        a.subrange(lo, hi).to_multiset() == b.subrange(lo, hi).to_multiset(),
    ensures
        range_items(a, lo, hi) == range_items(b, lo, hi),
{
    let sa = a.subrange(lo, hi);
    let sb = b.subrange(lo, hi);
    sa.to_multiset_ensures();
    sb.to_multiset_ensures();
    assert forall|p: int| range_items(a, lo, hi).contains(p) implies range_items(b, lo, hi).contains(p) by {
        let k = choose|k: int| lo <= k < hi && a[k] as int == p;
        assert(sa[k - lo] == a[k]);
        assert(sa.contains(a[k]));
        assert(sa.to_multiset().count(a[k]) > 0);
        assert(sb.to_multiset().count(a[k]) > 0);
        assert(sb.contains(a[k]));
        let j = choose|j: int| 0 <= j < sb.len() && sb[j] == a[k];
        assert(b[j + lo] == sb[j]);
    }
    assert forall|p: int| range_items(b, lo, hi).contains(p) implies range_items(a, lo, hi).contains(p) by {
        let k = choose|k: int| lo <= k < hi && b[k] as int == p;
        assert(sb[k - lo] == b[k]);
        assert(sb.contains(b[k]));
        assert(sb.to_multiset().count(b[k]) > 0);
        assert(sa.to_multiset().count(b[k]) > 0);
        assert(sa.contains(b[k]));
        let j = choose|j: int| 0 <= j < sa.len() && sa[j] == b[k];
        assert(a[j + lo] == sa[j]);
    }
    assert(range_items(a, lo, hi) =~= range_items(b, lo, hi));
}

impl BvhTree {
    fn new_leaf(&mut self, boxes: &Vec<Aabb>, item: usize) -> (id: NodeId)
        requires
            item < boxes.len(),
            nodes_ok(old(self).nodes@, boxes@),
            splits_ok(old(self).nodes@, boxes@),
        ensures
            splits_ok(final(self).nodes@, boxes@),
            final(self).nodes@ == old(self).nodes@.push(
                BvhNode { left: None, right: None, aabb: boxes@[item as int], item: Some(item) },
            ),
            id.index == old(self).nodes@.len(),
            nodes_ok(final(self).nodes@, boxes@),
            subtree_items(final(self).nodes@, id.index as int) == set![item as int],
            forall|i: int|
                0 <= i < old(self).nodes@.len() ==> subtree_items(final(self).nodes@, i)
                    == subtree_items(old(self).nodes@, i),
            leaf_count(final(self).nodes@, id.index as int) == 1,
            final(self).root == old(self).root,
            final(self).item_boxes == old(self).item_boxes,
    {
        let next_index = self.nodes.len();
        self.nodes.push(BvhNode { left: None, right: None, aabb: boxes[item], item: Some(item) });
        proof {
            let nodes = self.nodes@;
            assert forall|i: int| 0 <= i < nodes.len() implies #[trigger] node_ok(nodes, i, boxes@) by {
                if i < next_index {
                    assert(node_ok(old(self).nodes@, i, boxes@));
                }
            }
            lemma_splits_preserved(old(self).nodes@, nodes, boxes@);
            assert forall|i: int| 0 <= i < old(self).nodes@.len() implies subtree_items(nodes, i)
                == subtree_items(old(self).nodes@, i) by {
                lemma_subtree_items_prefix(old(self).nodes@, nodes, i);
            }
        }
        NodeId { index: next_index }
    }

    fn new_node(&mut self, boxes: &Vec<Aabb>, aabb: Aabb, left: NodeId, right: NodeId) -> (id: NodeId)
        requires
            nodes_ok(old(self).nodes@, boxes@),
            left.index < old(self).nodes@.len(),
            right.index < old(self).nodes@.len(),
            aabb == union_box(
                old(self).nodes@[left.index as int].aabb,
                old(self).nodes@[right.index as int].aabb,
            ),
            splits_ok(old(self).nodes@, boxes@),
            exists|axis: int|
                0 <= axis < 3 && #[trigger] separated_on(
                    boxes@,
                    subtree_items(old(self).nodes@, left.index as int),
                    subtree_items(old(self).nodes@, right.index as int),
                    axis,
                ),
            leaf_count(old(self).nodes@, left.index as int) == (leaf_count(
                old(self).nodes@,
                left.index as int,
            ) + leaf_count(old(self).nodes@, right.index as int)) / 2,
        ensures
            splits_ok(final(self).nodes@, boxes@),
            leaf_count(final(self).nodes@, id.index as int) == leaf_count(
                old(self).nodes@,
                left.index as int,
            ) + leaf_count(old(self).nodes@, right.index as int),
            forall|i: int|
                0 <= i < old(self).nodes@.len() ==> subtree_items(final(self).nodes@, i)
                    == subtree_items(old(self).nodes@, i),
            final(self).nodes@ == old(self).nodes@.push(
                BvhNode { left: Some(left), right: Some(right), aabb, item: None },
            ),
            id.index == old(self).nodes@.len(),
            nodes_ok(final(self).nodes@, boxes@),
            subtree_items(final(self).nodes@, id.index as int) == subtree_items(
                old(self).nodes@,
                left.index as int,
            ).union(subtree_items(old(self).nodes@, right.index as int)),
            final(self).root == old(self).root,
            final(self).item_boxes == old(self).item_boxes,
    {
        let next_index = self.nodes.len();
        self.nodes.push(BvhNode { left: Some(left), right: Some(right), aabb, item: None });
        proof {
            let nodes = self.nodes@;
            assert forall|i: int| 0 <= i < nodes.len() implies #[trigger] node_ok(nodes, i, boxes@) by {
                if i < next_index {
                    assert(node_ok(old(self).nodes@, i, boxes@));
                }
            }
            lemma_subtree_items_prefix(old(self).nodes@, nodes, left.index as int);
            lemma_subtree_items_prefix(old(self).nodes@, nodes, right.index as int);
            lemma_splits_preserved(old(self).nodes@, nodes, boxes@);
            let axis = choose|axis: int|
                0 <= axis < 3 && #[trigger] separated_on(
                    boxes@,
                    subtree_items(old(self).nodes@, left.index as int),
                    subtree_items(old(self).nodes@, right.index as int),
                    axis,
                );
            assert(nodes[next_index as int].left->0 == left);
            assert(nodes[next_index as int].right->0 == right);
            assert(separated_on(
                boxes@,
                subtree_items(nodes, left.index as int),
                subtree_items(nodes, right.index as int),
                axis,
            ));
            assert(split_ok(nodes, next_index as int, boxes@));
            assert forall|i: int| 0 <= i < old(self).nodes@.len() implies subtree_items(nodes, i)
                == subtree_items(old(self).nodes@, i) by {
                lemma_subtree_items_prefix(old(self).nodes@, nodes, i);
            }
            assert forall|i: int| 0 <= i < nodes.len() implies #[trigger] split_ok(nodes, i, boxes@) by {
                if i < next_index {
                } else {
                    assert(i == next_index);
                }
            }
        }
        NodeId { index: next_index }
    }

    /// Builds the subtree over the primitives at positions `lo..hi` of `order`:
    /// sorts them along the next axis of `axes`, makes one or two leaves, or
    /// splits the range in half and recurses.
    fn build(
        &mut self,
        order: &mut Vec<usize>,
        lo: usize,
        hi: usize,
        boxes: &Vec<Aabb>,
        axes: &Vec<usize>,
        next: &mut usize,
    ) -> (id: NodeId)
        requires
            lo < hi <= old(order).len(),
            forall|k: int| lo <= k < hi ==> old(order)@[k] < boxes.len(),
            nodes_ok(old(self).nodes@, boxes@),
            splits_ok(old(self).nodes@, boxes@),
            *old(next) < axes.len(),
            forall|k: int| 0 <= k < axes.len() ==> axes@[k] < 3,
        ensures
            final(self).nodes@.len() == old(self).nodes@.len() + 2 * (hi - lo) - 1,
            id.index == final(self).nodes@.len() - 1,
            final(self).nodes@[id.index as int].item is None ==> separated_on(
                boxes@,
                subtree_items(final(self).nodes@, final(self).nodes@[id.index as int].left->0.index as int),
                subtree_items(final(self).nodes@, final(self).nodes@[id.index as int].right->0.index as int),
                axes@[*old(next) as int] as int,
            ),
            forall|i: int|
                0 <= i < old(self).nodes@.len() ==> final(self).nodes@[i] == old(self).nodes@[i],
            nodes_ok(final(self).nodes@, boxes@),
            splits_ok(final(self).nodes@, boxes@),
            leaf_count(final(self).nodes@, id.index as int) == hi - lo,
            subtree_items(final(self).nodes@, id.index as int) == range_items(
                old(order)@,
                lo as int,
                hi as int,
            ),
            final(order)@.len() == old(order)@.len(),
            forall|k: int|
                0 <= k < old(order)@.len() && !(lo <= k < hi) ==> final(order)@[k] == old(
                    order,
                )@[k],
            range_items(final(order)@, lo as int, hi as int) == range_items(
                old(order)@,
                lo as int,
                hi as int,
            ),
            *final(next) < axes.len(),
            final(self).root == old(self).root,
            final(self).item_boxes == old(self).item_boxes,
        decreases hi - lo,
    {
        let ghost order0 = order@;
        let axis = axes[*next];
        *next = (*next + 1) % axes.len();
        sort_range_by_min(order, lo, hi, boxes, axis);
        proof {
            lemma_same_multiset_same_items(order@, order0, lo as int, hi as int);
        }
        let ghost order1 = order@;
        assert forall|k: int| lo <= k < hi implies order1[k] < boxes.len() by {
            assert(range_items(order1, lo as int, hi as int).contains(order1[k] as int));
        }
        if hi - lo == 1 {
            let id = self.new_leaf(boxes, order[lo]);
            assert(range_items(order1, lo as int, hi as int) =~= set![order1[lo as int] as int]);
            return id;
        }
        let left: NodeId;
        let right: NodeId;
        let ghost nodes0 = self.nodes@;
        if hi - lo == 2 {
            left = self.new_leaf(boxes, order[lo]);
            let ghost nodes1 = self.nodes@;
            right = self.new_leaf(boxes, order[lo + 1]);
            proof {
                lemma_subtree_items_prefix(nodes1, self.nodes@, left.index as int);
                assert(range_items(order1, lo as int, hi as int) =~= set![
                    order1[lo as int] as int,
                    order1[lo + 1] as int,
                ]);
            }
        } else {
            let mid = lo + (hi - lo) / 2;
            left = self.build(order, lo, mid, boxes, axes, next);
            let ghost order2 = order@;
            let ghost nodes1 = self.nodes@;
            assert forall|k: int| mid <= k < hi implies order2[k] < boxes.len() by {
                assert(order2[k] == order1[k]);
            }
            right = self.build(order, mid, hi, boxes, axes, next);
            let ghost order3 = order@;
            proof {
                lemma_subtree_items_prefix(nodes1, self.nodes@, left.index as int);
                assert(range_items(order2, mid as int, hi as int) =~= range_items(
                    order1,
                    mid as int,
                    hi as int,
                ));
                assert(range_items(order3, lo as int, mid as int) =~= range_items(
                    order2,
                    lo as int,
                    mid as int,
                ));
                lemma_range_split(order1, lo as int, mid as int, hi as int);
                lemma_range_split(order3, lo as int, mid as int, hi as int);
            }
        }
        proof {
            let mid = if hi - lo == 2 { lo + 1 } else { lo + (hi - lo) / 2 };
            let litems = subtree_items(self.nodes@, left.index as int);
            let ritems = subtree_items(self.nodes@, right.index as int);
            if hi - lo == 2 {
                assert(litems =~= range_items(order1, lo as int, mid as int));
                assert(ritems =~= range_items(order1, mid as int, hi as int));
            }
            assert(litems == range_items(order1, lo as int, mid as int));
            assert(ritems == range_items(order1, mid as int, hi as int));
            assert forall|p: int, q: int|
                #[trigger] litems.contains(p) && #[trigger] ritems.contains(q) implies boxes@[p].min.at(
                axis as int,
            ) <= boxes@[q].min.at(axis as int) by {
                let j = choose|j: int| lo <= j < mid && order1[j] as int == p;
                let k = choose|k: int| mid <= k < hi && order1[k] as int == q;
            }
            assert(separated_on(boxes@, litems, ritems, axis as int));
        }
        let aabb = surrounding_box(&self.nodes[left.index].aabb, &self.nodes[right.index].aabb);
        let id = self.new_node(boxes, aabb, left, right);
        proof {
            if hi - lo == 2 {
                assert(order@ =~= order1);
            }
        }
        id
    }
}


/// Every primitive has a bounding box.
pub open spec fn all_present(boxes: Seq<Option<Aabb>>) -> bool {
    forall|i: int| 0 <= i < boxes.len() ==> boxes[i] is Some
}

/// The boxes of a list in which every primitive has one.
pub open spec fn present_boxes(boxes: Seq<Option<Aabb>>) -> Seq<Aabb> {
    Seq::new(boxes.len(), |i: int| boxes[i]->0)
}

/// The error for a list of optional boxes: the first primitive without one.
pub open spec fn first_missing(boxes: Seq<Option<Aabb>>, i: int) -> bool {
    0 <= i < boxes.len() && boxes[i] is None && forall|k: int| 0 <= k < i ==> boxes[k] is Some
}

/// Takes the boxes out of their `Option`s, failing on the first missing one.
fn collect_boxes(boxes: &Vec<Option<Aabb>>) -> (r: Result<Vec<Aabb>, BuildError>)
    ensures
        r is Ok <==> all_present(boxes@),
        r is Ok ==> r->Ok_0@ == present_boxes(boxes@),
        r matches Err(BuildError::MissingBoundingBox(i)) ==> first_missing(boxes@, i as int),
{
    let mut out: Vec<Aabb> = Vec::new();
    let mut i: usize = 0;
    while i < boxes.len()
        invariant
            i <= boxes.len(),
            out@.len() == i,
            forall|k: int| 0 <= k < i ==> (#[trigger] boxes@[k] is Some),
            forall|k: int| 0 <= k < i ==> #[trigger] out@[k] == boxes@[k]->0,
        decreases boxes.len() - i,
    {
        let bi = boxes[i];
        assert(bi == boxes@[i as int]);
        match bi {
            Some(b) => {
                out.push(b);
                assert(out@[i as int] == boxes@[i as int]->0);
            },
            None => return Err(BuildError::MissingBoundingBox(i)),
        }
        i += 1;
    }
    assert(i == boxes.len());
    assert(out@ =~= present_boxes(boxes@));
    Ok(out)
}

impl BvhTree {
    /// Builds the hierarchy over primitives with the given boxes. The `k`-th
    /// subtree built (in pre-order, cycling through `axes`) sorts its
    /// primitives along axis `axes[k]` before it splits them in half.
    pub fn from_axes(boxes: &Vec<Aabb>, axes: &Vec<usize>) -> (r: BvhTree)
        requires
            axes.len() > 0,
            forall|k: int| 0 <= k < axes.len() ==> axes@[k] < 3,
        ensures
            r.wf(),
            r.item_boxes@ == boxes@,
            r.nodes@.len() == if boxes@.len() == 0 {
                0
            } else {
                2 * boxes@.len() - 1
            },
            r.root is Some && r.nodes@[r.root->0.index as int].item is None ==> separated_on(
                boxes@,
                subtree_items(r.nodes@, r.nodes@[r.root->0.index as int].left->0.index as int),
                subtree_items(r.nodes@, r.nodes@[r.root->0.index as int].right->0.index as int),
                axes@[0] as int,
            ),
    {
        let mut tree = BvhTree { nodes: Vec::new(), root: None, item_boxes: boxes.clone() };
        let n = boxes.len();
        if n == 0 {
            return tree;
        }
        let mut order: Vec<usize> = Vec::new();
        let mut i: usize = 0;
        while i < n
            invariant
                i <= n,
                n == boxes.len(),
                order@.len() == i,
                forall|k: int| 0 <= k < i ==> order@[k] == k,
            decreases n - i,
        {
            order.push(i);
            i += 1;
        }
        let mut next: usize = 0;
        assert(tree.item_boxes@ == boxes@);
        let ghost order0 = order@;
        let root = tree.build(&mut order, 0, n, boxes, axes, &mut next);
        tree.root = Some(root);
        proof {
            assert forall|p: int| all_items(n as int).contains(p) implies range_items(order0, 0, n as int).contains(p) by {
                assert(order0[p] as int == p);
            }
            assert(range_items(order0, 0, n as int) =~= all_items(n as int));
        }
        tree
    }

    /// Builds the hierarchy over primitives with the given bounding boxes,
    /// choosing each split axis uniformly at random. Fails, naming the first
    /// such primitive, when a primitive has no bounding box.
    pub fn new(boxes: &Vec<Option<Aabb>>) -> (r: Result<BvhTree, BuildError>)
        ensures
            r is Ok <==> all_present(boxes@),
            r is Ok ==> r->Ok_0.wf() && r->Ok_0.item_boxes@ == present_boxes(boxes@),
            r is Ok ==> r->Ok_0.nodes@.len() == if boxes@.len() == 0 {
                0
            } else {
                2 * boxes@.len() - 1
            },
            r matches Err(BuildError::MissingBoundingBox(i)) ==> first_missing(boxes@, i as int),
    {
        let present = match collect_boxes(boxes) {
            Ok(b) => b,
            Err(e) => return Err(e),
        };
        let mut axes: Vec<usize> = Vec::new();
        axes.push(random_below(3));
        let mut i: usize = 0;
        while i < present.len()
            invariant
                axes@.len() > 0,
                forall|k: int| 0 <= k < axes.len() ==> axes@[k] < 3,
            decreases present.len() - i,
        {
            axes.push(random_below(3));
            axes.push(random_below(3));
            i += 1;
        }
        Ok(BvhTree::from_axes(&present, &axes))
    }

    /// The box of the whole scene: the root's box, or none for an empty scene.
    pub fn bounding_box(&self) -> (r: Option<Aabb>)
        requires
            self.wf(),
        ensures
            r == match self.root {
                Some(id) => Some(self.nodes@[id.index as int].aabb),
                None => None::<Aabb>,
            },
    {
        match self.root {
            Some(id) => Some(self.nodes[id.index].aabb),
            None => None,
        }
    }
}

/// The bounding box of a group of primitives: none for an empty group or
/// when a member has none, else the union of the members' boxes, in order.
pub open spec fn group_box(boxes: Seq<Option<Aabb>>) -> Option<Aabb>
    decreases boxes.len(),
{
    if boxes.len() == 0 {
        None
    } else if boxes.len() == 1 {
        boxes[0]
    } else {
        match (group_box(boxes.drop_last()), boxes.last()) {
            (Some(a), Some(b)) => Some(union_box(a, b)),
            _ => None,
        }
    }
}

/// The bounding box of a group whose members have the given boxes.
pub fn group_bounding_box(boxes: &Vec<Option<Aabb>>) -> (r: Option<Aabb>)
    ensures
        r == group_box(boxes@),
        r is Some <==> boxes@.len() > 0 && all_present(boxes@),
        r is Some ==> forall|i: int| 0 <= i < boxes@.len() ==> r->0.contains(#[trigger] boxes@[i]->0),
{
    if boxes.len() < 1 {
        return None;
    }
    let mut result: Aabb = match boxes[0] {
        Some(b) => b,
        None => {
            proof {
                lemma_group_box_none(boxes@, 0);
            }
            return None;
        },
    };
    assert(boxes@.subrange(0, 1).drop_last() =~= Seq::<Option<Aabb>>::empty());
    assert(group_box(boxes@.subrange(0, 1)) == boxes@[0]);
    let mut i: usize = 1;
    while i < boxes.len()
        invariant
            1 <= i <= boxes.len(),
            group_box(boxes@.subrange(0, i as int)) == Some(result),
            forall|k: int| 0 <= k < i ==> (#[trigger] boxes@[k] is Some),
            forall|k: int| 0 <= k < i ==> result.contains(#[trigger] boxes@[k]->0),
        decreases boxes.len() - i,
    {
        let bi = boxes[i];
        assert(boxes@.subrange(0, i + 1).drop_last() =~= boxes@.subrange(0, i as int));
        match bi {
            Some(b) => {
                let ghost before = result;
                result = surrounding_box(&result, &b);
                proof {
                    lemma_surrounding_box_contains(before, b);
                    assert forall|k: int| 0 <= k < i + 1 implies result.contains(#[trigger] boxes@[k]->0) by {
                        if k < i {
                            lemma_contains_trans(result, before, boxes@[k]->0);
                        }
                    }
                }
            },
            None => {
                proof {
                    lemma_group_box_none(boxes@, i as int);
                }
                return None;
            },
        }
        i += 1;
    }
    assert(boxes@.subrange(0, i as int) =~= boxes@);
    Some(result)
}

/// A group with a member that has no box has no box.
proof fn lemma_group_box_none(boxes: Seq<Option<Aabb>>, i: int)
    requires
        0 <= i < boxes.len(),
        boxes[i] is None,
    ensures
        group_box(boxes) is None,
    decreases boxes.len(),
{
    if boxes.len() > 1 && i < boxes.len() - 1 {
        lemma_group_box_none(boxes.drop_last(), i);
    }
}

} // verus!
