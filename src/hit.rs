use crate::aabb::Aabb;
use crate::bvh::{
    BvhTree, all_items, leaf_order, lemma_leaf_order_items, lemma_node_box_contains_items, node_ok,
    nodes_ok, subtree_items,
};
use vstd::prelude::*;

verus! {

/// A hit as the hierarchy sees it: the order code of the ray distance `t`,
/// and whatever record the caller attaches to it.
pub type KeyedHit<H> = (i32, H);

/// Each call of `prim_hit` on a primitive reports the same outcome: hit or
/// miss, and the same distance.
pub open spec fn keys_deterministic<H, P: Fn(usize) -> Option<KeyedHit<H>>>(prim_hit: P) -> bool {
    forall|p: usize, r1: Option<KeyedHit<H>>, r2: Option<KeyedHit<H>>|
        #[trigger] prim_hit.ensures((p,), r1) && #[trigger] prim_hit.ensures((p,), r2) ==> {
            &&& (r1 is Some <==> r2 is Some)
            &&& (r1 is Some ==> (r1->0).0 == (r2->0).0)
        }
}

/// The box test never rejects a box that contains the box of a primitive the
/// ray hits.
pub open spec fn box_test_sound<H, B: Fn(&Aabb) -> bool, P: Fn(usize) -> Option<KeyedHit<H>>>(
    box_hit: B,
    prim_hit: P,
    boxes: Seq<Aabb>,
) -> bool {
    forall|b: Aabb, p: usize, r: Option<KeyedHit<H>>, t: bool|
        p < boxes.len() && #[trigger] b.contains(boxes[p as int]) && #[trigger] prim_hit.ensures(
            (p,),
            r,
        ) && r is Some && #[trigger] box_hit.ensures((&b,), t) ==> t
}

/// `r` is a hit that `prim_hit` reported for one of `items`.
pub open spec fn comes_from<H, P: Fn(usize) -> Option<KeyedHit<H>>>(
    prim_hit: P,
    items: Set<int>,
    r: Option<KeyedHit<H>>,
) -> bool {
    r is Some ==> exists|p: int| #[trigger] items.contains(p) && prim_hit.ensures((p as usize,), r)
}

/// No primitive of `items` is hit closer than `r`, and if any is hit, `r` is a hit.
pub open spec fn no_closer_hit<H, P: Fn(usize) -> Option<KeyedHit<H>>>(
    prim_hit: P,
    items: Set<int>,
    r: Option<KeyedHit<H>>,
) -> bool {
    forall|p: int, r2: Option<KeyedHit<H>>|
        #[trigger] items.contains(p) && #[trigger] prim_hit.ensures((p as usize,), r2) && r2 is Some
            ==> r is Some && (r->0).0 <= (r2->0).0
}

/// The primitive at position `pos` of `order` gave `r`, and every primitive
/// after it that is hit is hit strictly farther away.
pub open spec fn last_nearest<H, P: Fn(usize) -> Option<KeyedHit<H>>>(
    prim_hit: P,
    order: Seq<int>,
    pos: int,
    r: Option<KeyedHit<H>>,
) -> bool {
    &&& 0 <= pos < order.len()
    &&& prim_hit.ensures((order[pos] as usize,), r)
    &&& forall|q: int, r2: Option<KeyedHit<H>>|
        pos < q < order.len() && #[trigger] prim_hit.ensures((order[q] as usize,), r2) && r2 is Some
            ==> (r2->0).0 > (r->0).0
}

/// What the hierarchy's traversal returns over primitives `0..n`: on equal
/// distances the primitive rightmost in leaf order wins.
pub open spec fn bvh_hit_post<H, B: Fn(&Aabb) -> bool, P: Fn(usize) -> Option<KeyedHit<H>>>(
    tree: BvhTree,
    box_hit: B,
    prim_hit: P,
    r: Option<KeyedHit<H>>,
) -> bool {
    let items = all_items(tree.item_boxes@.len() as int);
    &&& comes_from(prim_hit, items, r)
    &&& (keys_deterministic(prim_hit) && box_test_sound(box_hit, prim_hit, tree.item_boxes@)
        ==> no_closer_hit(prim_hit, items, r))
    &&& (keys_deterministic(prim_hit) && box_test_sound(box_hit, prim_hit, tree.item_boxes@)
        && r is Some ==> exists|pos: int|
        #[trigger] last_nearest(prim_hit, leaf_order(tree.nodes@, tree.root->0.index as int), pos, r))
}

/// Primitive `p` gave `r`, and every primitive before it that is hit is hit
/// strictly farther away.
pub open spec fn first_nearest<H, P: Fn(usize) -> Option<KeyedHit<H>>>(
    prim_hit: P,
    p: int,
    r: Option<KeyedHit<H>>,
) -> bool {
    &&& prim_hit.ensures((p as usize,), r)
    &&& forall|q: int, r2: Option<KeyedHit<H>>|
        0 <= q < p && #[trigger] prim_hit.ensures((q as usize,), r2) && r2 is Some ==> (r2->0).0
            > (r->0).0
}

/// What the linear scan over primitives `0..n` returns: on equal distances
/// the first primitive wins.
pub open spec fn scan_hit_post<H, P: Fn(usize) -> Option<KeyedHit<H>>>(
    n: int,
    prim_hit: P,
    r: Option<KeyedHit<H>>,
) -> bool {
    &&& comes_from(prim_hit, all_items(n), r)
    &&& (keys_deterministic(prim_hit) ==> no_closer_hit(prim_hit, all_items(n), r))
    &&& (keys_deterministic(prim_hit) && r is Some ==> exists|p: int|
        0 <= p < n && #[trigger] first_nearest(prim_hit, p, r))
}

/// The closer of two candidate hits; on equal distances the second one.
fn closer<H>(a: Option<KeyedHit<H>>, b: Option<KeyedHit<H>>) -> (r: Option<KeyedHit<H>>)
    ensures
        r == (match (a, b) {
            (Some(x), Some(y)) => if x.0 < y.0 {
                a
            } else {
                b
            },
            (Some(_), None) => a,
            _ => b,
        }),
{
    match a {
        Some(x) => match b {
            Some(y) => if x.0 < y.0 {
                Some(x)
            } else {
                Some(y)
            },
            None => Some(x),
        },
        None => b,
    }
}

impl BvhTree {
    fn hit_node<H, B: Fn(&Aabb) -> bool, P: Fn(usize) -> Option<KeyedHit<H>>>(
        &self,
        id: usize,
        box_hit: &B,
        prim_hit: &P,
    ) -> (r: Option<KeyedHit<H>>)
        requires
            nodes_ok(self.nodes@, self.item_boxes@),
            id < self.nodes@.len(),
            forall|b: &Aabb| box_hit.requires((b,)),
            forall|p: usize| prim_hit.requires((p,)),
        ensures
            comes_from(*prim_hit, subtree_items(self.nodes@, id as int), r),
            keys_deterministic(*prim_hit) && box_test_sound(*box_hit, *prim_hit, self.item_boxes@)
                ==> no_closer_hit(*prim_hit, subtree_items(self.nodes@, id as int), r),
            keys_deterministic(*prim_hit) && box_test_sound(*box_hit, *prim_hit, self.item_boxes@)
                && r is Some ==> exists|pos: int|
                #[trigger] last_nearest(*prim_hit, leaf_order(self.nodes@, id as int), pos, r),
        decreases id,
    {
        let ghost items = subtree_items(self.nodes@, id as int);
        proof {
            assert(node_ok(self.nodes@, id as int, self.item_boxes@));
        }
        let node = &self.nodes[id];
        let inside = box_hit(&node.aabb);
        if !inside {
            proof {
                if keys_deterministic(*prim_hit) && box_test_sound(
                    *box_hit,
                    *prim_hit,
                    self.item_boxes@,
                ) {
                    assert forall|p: int, r2: Option<KeyedHit<H>>|
                        #[trigger] items.contains(p) && #[trigger] prim_hit.ensures(
                            (p as usize,),
                            r2,
                        ) && r2 is Some implies false by {
                        lemma_node_box_contains_items(
                            self.nodes@,
                            self.item_boxes@,
                            id as int,
                            p,
                        );
                        assert(self.item_boxes@.len() == self.item_boxes.len());
                        assert((p as usize) as int == p);
                        assert(node.aabb.contains(self.item_boxes@[(p as usize) as int]));
                    }
                }
            }
            return None;
        }
        match node.item {
            Some(p) => {
                let r = prim_hit(p);
                proof {
                    assert(items =~= set![p as int]);
                    assert(items.contains(p as int));
                    if r is Some {
                        assert(leaf_order(self.nodes@, id as int) =~= seq![p as int]);
                        assert(last_nearest(*prim_hit, leaf_order(self.nodes@, id as int), 0, r));
                    }
                }
                return r;
            },
            None => {},
        }
        let l = node.left.unwrap().index;
        let rt = node.right.unwrap().index;
        let hit_left = self.hit_node(l, box_hit, prim_hit);
        let hit_right = self.hit_node(rt, box_hit, prim_hit);
        let ghost litems = subtree_items(self.nodes@, l as int);
        let ghost ritems = subtree_items(self.nodes@, rt as int);
        assert(items == litems.union(ritems));
        let r = closer(hit_left, hit_right);
        proof {
            let lo = leaf_order(self.nodes@, l as int);
            let ro = leaf_order(self.nodes@, rt as int);
            let order = leaf_order(self.nodes@, id as int);
            assert(order == lo + ro);
            if keys_deterministic(*prim_hit) && box_test_sound(*box_hit, *prim_hit, self.item_boxes@)
                && r is Some {
                if r == hit_right && hit_right is Some && !(hit_left is Some && (hit_left->0).0 < (
                hit_right->0).0) {
                    let pr = choose|pos: int| #[trigger] last_nearest(*prim_hit, ro, pos, hit_right);
                    assert forall|q: int, r2: Option<KeyedHit<H>>|
                        lo.len() + pr < q < order.len() && #[trigger] prim_hit.ensures(
                            (order[q] as usize,),
                            r2,
                        ) && r2 is Some implies (r2->0).0 > (r->0).0 by {
                        assert(order[q] == ro[q - lo.len()]);
                    }
                    assert(order[lo.len() + pr] == ro[pr]);
                    assert(last_nearest(*prim_hit, order, lo.len() + pr, r));
                } else {
                    let pl = choose|pos: int| #[trigger] last_nearest(*prim_hit, lo, pos, hit_left);
                    assert forall|q: int, r2: Option<KeyedHit<H>>|
                        pl < q < order.len() && #[trigger] prim_hit.ensures((order[q] as usize,), r2)
                            && r2 is Some implies (r2->0).0 > (r->0).0 by {
                        if q < lo.len() {
                            assert(order[q] == lo[q]);
                        } else {
                            assert(order[q] == ro[q - lo.len()]);
                            lemma_leaf_order_items(self.nodes@, rt as int, q - lo.len());
                            assert(ritems.contains(order[q]));
                        }
                    }
                    assert(order[pl] == lo[pl]);
                    assert(last_nearest(*prim_hit, order, pl, r));
                }
            }
            if r is Some {
                if r == hit_left {
                    let p = choose|p: int| #[trigger] litems.contains(p) && prim_hit.ensures((p as usize,), hit_left);
                    assert(items.contains(p));
                } else {
                    let p = choose|p: int| #[trigger] ritems.contains(p) && prim_hit.ensures((p as usize,), hit_right);
                    assert(items.contains(p));
                }
            }
        }
        r
    }

    /// The nearest hit among the scene's primitives, found by walking the
    /// hierarchy: a subtree whose box `box_hit` rejects is skipped; at a leaf
    /// the primitive's own `prim_hit` decides; an inner node returns the closer
    /// of its children's hits, the right one on equal distances. When each
    /// primitive's distance is reported consistently and the box test never
    /// rejects a box holding a hit primitive, no primitive is hit closer.
    pub fn hit<H, B: Fn(&Aabb) -> bool, P: Fn(usize) -> Option<KeyedHit<H>>>(
        &self,
        box_hit: &B,
        prim_hit: &P,
    ) -> (r: Option<KeyedHit<H>>)
        requires
            self.wf(),
            forall|b: &Aabb| box_hit.requires((b,)),
            forall|p: usize| prim_hit.requires((p,)),
        ensures
            bvh_hit_post(*self, *box_hit, *prim_hit, r),
    {
        match self.root {
            Some(root) => self.hit_node(root.index, box_hit, prim_hit),
            None => None,
        }
    }
}

/// The nearest hit among primitives `0..n` by a linear scan: each primitive
/// is asked in turn and a later hit replaces the current one only when it is
/// strictly closer. When each primitive's distance is reported consistently,
/// no primitive is hit closer.
pub fn nearest_hit<H, P: Fn(usize) -> Option<KeyedHit<H>>>(n: usize, prim_hit: &P) -> (r: Option<
    KeyedHit<H>,
>)
    requires
        forall|p: usize| prim_hit.requires((p,)),
    ensures
        scan_hit_post(n as int, *prim_hit, r),
{
    let mut hit: Option<KeyedHit<H>> = None;
    let ghost mut best: usize = 0;
    let mut i: usize = 0;
    while i < n
        invariant
            i <= n,
            forall|p: usize| prim_hit.requires((p,)),
            comes_from(*prim_hit, all_items(i as int), hit),
            keys_deterministic(*prim_hit) ==> no_closer_hit(*prim_hit, all_items(i as int), hit),
            hit is Some ==> best < i && prim_hit.ensures((best,), hit),
            keys_deterministic(*prim_hit) && hit is Some ==> first_nearest(
                *prim_hit,
                best as int,
                hit,
            ),
        decreases n - i,
    {
        let candidate = prim_hit(i);
        let ghost before = hit;
        let ghost best_before = best;
        let replace = match (&candidate, &hit) {
            (Some(c), Some(prev)) => c.0 < prev.0,
            (Some(_), None) => true,
            _ => false,
        };
        if replace {
            hit = candidate;
            proof {
                best = i;
            }
        }
        proof {
            let old_items = all_items(i as int);
            let new_items = all_items(i + 1);
            if hit is Some {
                if replace {
                    assert(new_items.contains(i as int));
                } else {
                    let p = choose|p: int| #[trigger] old_items.contains(p) && prim_hit.ensures((p as usize,), hit);
                    assert(new_items.contains(p));
                }
            }
            if keys_deterministic(*prim_hit) {
                assert forall|p: int, r2: Option<KeyedHit<H>>|
                    #[trigger] new_items.contains(p) && #[trigger] prim_hit.ensures((p as usize,), r2)
                        && r2 is Some implies hit is Some && (hit->0).0 <= (r2->0).0 by {
                    if p < i {
                        assert(old_items.contains(p));
                    } else {
                        assert(p == i);
                    }
                }
                if replace {
                    assert forall|q: int, r2: Option<KeyedHit<H>>|
                        0 <= q < best && #[trigger] prim_hit.ensures((q as usize,), r2) && r2 is Some
                            implies (r2->0).0 > (hit->0).0 by {
                        assert(old_items.contains(q));
                    }
                }
            }
        }
        i += 1;
    }
    proof {
        if keys_deterministic(*prim_hit) && hit is Some {
            assert(first_nearest(*prim_hit, best as int, hit));
        }
    }
    hit
}

/// Walking the hierarchy finds the same nearest hit as scanning every
/// primitive: both find a hit or neither does, at the same distance, given
/// that each primitive's distance is reported consistently and the box test
/// never rejects a box holding a hit primitive.
pub proof fn lemma_bvh_agrees_with_scan<H, B: Fn(&Aabb) -> bool, P: Fn(usize) -> Option<KeyedHit<H>>>(
    tree: BvhTree,
    box_hit: B,
    prim_hit: P,
    from_tree: Option<KeyedHit<H>>,
    from_scan: Option<KeyedHit<H>>,
)
    requires
        tree.wf(),
        keys_deterministic(prim_hit),
        box_test_sound(box_hit, prim_hit, tree.item_boxes@),
        bvh_hit_post(tree, box_hit, prim_hit, from_tree),
        scan_hit_post(tree.item_boxes@.len() as int, prim_hit, from_scan),
    ensures
        from_tree is Some <==> from_scan is Some,
        from_tree is Some ==> (from_tree->0).0 == (from_scan->0).0,
{
    let items = all_items(tree.item_boxes@.len() as int);
    if from_tree is Some {
        let p = choose|p: int| #[trigger] items.contains(p) && prim_hit.ensures((p as usize,), from_tree);
        assert(from_scan is Some && (from_scan->0).0 <= (from_tree->0).0);
    }
    if from_scan is Some {
        let p = choose|p: int| #[trigger] items.contains(p) && prim_hit.ensures((p as usize,), from_scan);
        assert(from_tree is Some && (from_tree->0).0 <= (from_scan->0).0);
    }
}

} // verus!
