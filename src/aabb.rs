use vstd::prelude::*;

verus! {

/// A point of space whose coordinates are order codes of `f32` values.
#[derive(Clone, Copy, Debug, PartialEq, Eq, Structural)]
pub struct Point3 {
    pub x: i32,
    pub y: i32,
    pub z: i32,
}

impl Point3 {
    /// Coordinate `a` (0 for x, 1 for y, 2 for z).
    pub open spec fn at(self, a: int) -> int {
        if a == 0 {
            self.x as int
        } else if a == 1 {
            self.y as int
        } else {
            self.z as int
        }
    }

    /// Componentwise `<=`.
    pub open spec fn le(self, o: Point3) -> bool {
        self.x <= o.x && self.y <= o.y && self.z <= o.z
    }

    pub fn new(x: i32, y: i32, z: i32) -> (r: Point3)
        ensures
            r == (Point3 { x, y, z }),
    {
        Point3 { x, y, z }
    }

    /// Coordinate along `axis`.
    pub fn get(&self, axis: usize) -> (r: i32)
        requires
            axis < 3,
        ensures
            r == self.at(axis as int),
    {
        if axis == 0 {
            self.x
        } else if axis == 1 {
            self.y
        } else {
            self.z
        }
    }
}

/// An axis-aligned box given by its two extreme corners.
#[derive(Clone, Copy, Debug, PartialEq, Eq, Structural)]
pub struct Aabb {
    pub min: Point3,
    pub max: Point3,
}

impl Aabb {
    /// The corners are ordered componentwise.
    pub open spec fn wf(self) -> bool {
        self.min.le(self.max)
    }

    /// `o` lies inside `self`, componentwise.
    pub open spec fn contains(self, o: Aabb) -> bool {
        self.min.le(o.min) && o.max.le(self.max)
    }

    /// Whether `o` lies inside `self`.
    pub fn encloses(&self, o: &Aabb) -> (r: bool)
        ensures
            r == self.contains(*o),
    {
        self.min.x <= o.min.x && self.min.y <= o.min.y && self.min.z <= o.min.z
            && o.max.x <= self.max.x && o.max.y <= self.max.y && o.max.z <= self.max.z
    }
}

pub open spec fn min_i32(a: i32, b: i32) -> i32 {
    if a < b {
        a
    } else {
        b
    }
}

pub open spec fn max_i32(a: i32, b: i32) -> i32 {
    if a > b {
        a
    } else {
        b
    }
}

/// The smallest box holding both `a` and `b`.
pub open spec fn union_box(a: Aabb, b: Aabb) -> Aabb {
    Aabb {
        min: Point3 {
            x: min_i32(a.min.x, b.min.x),
            y: min_i32(a.min.y, b.min.y),
            z: min_i32(a.min.z, b.min.z),
        },
        max: Point3 {
            x: max_i32(a.max.x, b.max.x),
            y: max_i32(a.max.y, b.max.y),
            z: max_i32(a.max.z, b.max.z),
        },
    }
}

fn ffmax(a: i32, b: i32) -> (r: i32)
    ensures
        r == max_i32(a, b),
{
    if a > b {
        a
    } else {
        b
    }
}

fn ffmin(a: i32, b: i32) -> (r: i32)
    ensures
        r == min_i32(a, b),
{
    if a < b {
        a
    } else {
        b
    }
}

/// The box that surrounds both boxes: the componentwise minimum of the lower
/// corners and the componentwise maximum of the upper corners.
pub fn surrounding_box(box0: &Aabb, box1: &Aabb) -> (r: Aabb)
    ensures
        r == union_box(*box0, *box1),
{
    let small = Point3::new(
        ffmin(box0.min.x, box1.min.x),
        ffmin(box0.min.y, box1.min.y),
        ffmin(box0.min.z, box1.min.z),
    );
    let big = Point3::new(
        ffmax(box0.max.x, box1.max.x),
        ffmax(box0.max.y, box1.max.y),
        ffmax(box0.max.z, box1.max.z),
    );
    Aabb { min: small, max: big }
}

/// The surrounding box of two boxes contains each of them, componentwise;
/// it is well formed when either of them is.
pub proof fn lemma_surrounding_box_contains(a: Aabb, b: Aabb)
    ensures
        union_box(a, b).contains(a),
        union_box(a, b).contains(b),
        a.wf() || b.wf() ==> union_box(a, b).wf(),
{
}

/// Containment is transitive.
pub proof fn lemma_contains_trans(a: Aabb, b: Aabb, c: Aabb)
    requires
        a.contains(b),
        b.contains(c),
    ensures
        a.contains(c),
{
}

/// `b` is the tightest box around `pts`: it holds each point, and each of its
/// six faces touches one of them.
pub open spec fn tight_around(b: Aabb, pts: Seq<Point3>) -> bool {
    &&& forall|k: int| 0 <= k < pts.len() ==> b.min.le(#[trigger] pts[k]) && pts[k].le(b.max)
    &&& exists|k: int| 0 <= k < pts.len() && #[trigger] pts[k].x == b.min.x
    &&& exists|k: int| 0 <= k < pts.len() && #[trigger] pts[k].y == b.min.y
    &&& exists|k: int| 0 <= k < pts.len() && #[trigger] pts[k].z == b.min.z
    &&& exists|k: int| 0 <= k < pts.len() && #[trigger] pts[k].x == b.max.x
    &&& exists|k: int| 0 <= k < pts.len() && #[trigger] pts[k].y == b.max.y
    &&& exists|k: int| 0 <= k < pts.len() && #[trigger] pts[k].z == b.max.z
}

/// The smallest box holding all the points, or none when there are none.
pub fn bounding_box_of_points(pts: &Vec<Point3>) -> (r: Option<Aabb>)
    ensures
        r is None <==> pts@.len() == 0,
        r is Some ==> r->0.wf() && tight_around(r->0, pts@),
{
    if pts.len() == 0 {
        return None;
    }
    let p0 = pts[0];
    let mut b = Aabb { min: p0, max: p0 };
    assert(pts@.subrange(0, 1)[0] == p0);
    let mut i: usize = 1;
    while i < pts.len()
        invariant
            1 <= i <= pts@.len(),
            b.wf(),
            tight_around(b, pts@.subrange(0, i as int)),
        decreases pts.len() - i,
    {
        let p = pts[i];
        let point_box = Aabb { min: p, max: p };
        let ghost before = b;
        let ghost prefix = pts@.subrange(0, i as int);
        b = surrounding_box(&b, &point_box);
        proof {
            let next = pts@.subrange(0, i + 1);
            assert forall|k: int| 0 <= k < next.len() implies b.min.le(#[trigger] next[k]) && next[k].le(b.max) by {
                if k < i {
                    assert(next[k] == prefix[k]);
                }
            }
            let wx = choose|k: int| 0 <= k < prefix.len() && #[trigger] prefix[k].x == before.min.x;
            let wy = choose|k: int| 0 <= k < prefix.len() && #[trigger] prefix[k].y == before.min.y;
            let wz = choose|k: int| 0 <= k < prefix.len() && #[trigger] prefix[k].z == before.min.z;
            let vx = choose|k: int| 0 <= k < prefix.len() && #[trigger] prefix[k].x == before.max.x;
            let vy = choose|k: int| 0 <= k < prefix.len() && #[trigger] prefix[k].y == before.max.y;
            let vz = choose|k: int| 0 <= k < prefix.len() && #[trigger] prefix[k].z == before.max.z;
            assert(next[wx] == prefix[wx] && next[wy] == prefix[wy] && next[wz] == prefix[wz]);
            assert(next[vx] == prefix[vx] && next[vy] == prefix[vy] && next[vz] == prefix[vz]);
            assert(next[i as int] == p);
        }
        i += 1;
    }
    assert(pts@.subrange(0, i as int) =~= pts@);
    Some(b)
}

} // verus!
