use crate::layout::image_len;
use crate::mesh::MaterialKind;
use crate::random::random_below;
use vstd::prelude::*;

verus! {

/// The number of equally likely values of a uniform draw from `[0, 1)`: a
/// draw `k` stands for the fraction `k / FRACTION_STEPS`, exactly the values a
/// standard `f32` draw takes.
pub const FRACTION_STEPS: u32 = 16777216;

/// Draws below this bound (0.8 as an `f32`, in steps) pick a diffuse material.
pub const LAMBERTIAN_BELOW: u32 = 13421773;

/// Draws below this bound (0.95 as an `f32`, in steps) and not below the
/// diffuse bound pick a metal; the others pick glass.
pub const METAL_BELOW: u32 = 15938355;

/// A background that shades by the ray's height: white below, sky blue above.
#[derive(Clone, Copy, Debug, PartialEq, Eq, Structural)]
pub struct SimpleSky {}

/// A black background.
#[derive(Clone, Copy, Debug, PartialEq, Eq, Structural)]
pub struct Void {}

/// The colour a ray sees when it leaves the scene.
#[derive(Clone, Copy, Debug, PartialEq, Eq, Structural)]
pub enum Environment {
    SimpleSky(SimpleSky),
    Void(Void),
}

/// The material of one of the small random spheres, with the draws that set
/// its parameters: a diffuse albedo channel is the product of two draws, a
/// metal channel is `0.5 * (1 + draw)` and its fuzz `0.5 * draw`.
#[derive(Clone, Copy, Debug, PartialEq, Eq, Structural)]
pub enum SmallMaterial {
    Lambertian { r1: u32, r2: u32, g1: u32, g2: u32, b1: u32, b2: u32 },
    Metal { r: u32, g: u32, b: u32, fuzz: u32 },
    Dielectric,
}

/// A small sphere of the random scene, in grid cell `(a, b)`: its centre is
/// `(a + 0.9 * dx, 0.2, b + 0.9 * dz)`, with `dx` and `dz` draws, and its
/// radius 0.2.
#[derive(Clone, Copy, Debug, PartialEq, Eq, Structural)]
pub struct SmallSphere {
    pub a: i32,
    pub b: i32,
    pub dx: u32,
    pub dz: u32,
    pub material: SmallMaterial,
}

/// Which scene to render.
#[derive(Clone, Debug, PartialEq, Eq)]
pub enum SceneSetup {
    /// Four large spheres and a light over a checkered ground, with these
    /// small spheres scattered around them.
    Random(Vec<SmallSphere>),
    /// The Cornell box: five walls, a ceiling light, two rotated blocks and a
    /// glass sphere filled with fog.
    Cornell,
}

/// Everything a render needs beyond the geometry itself.
#[derive(Clone, Debug, PartialEq, Eq)]
pub struct RenderPlan {
    pub width: usize,
    pub height: usize,
    pub samples: usize,
    pub max_ray_depth: i32,
    pub scene: SceneSetup,
    pub environment: Environment,
}

/// Why a render cannot start.
#[derive(Clone, Copy, Debug, PartialEq, Eq, Structural)]
pub enum RenderError {
    /// The image has no pixels.
    EmptyImage,
    /// No samples per pixel were asked for, so no pixel has a value.
    NoSamples,
    /// The image's bytes do not fit in memory addresses.
    ImageTooLarge,
}

/// The grid cells of the small spheres run over `-11..11` on both axes.
pub open spec fn in_grid(a: int) -> bool {
    -11 <= a < 11
}

/// The sphere of cell `(a, b)` with draws `dx`, `dz` is kept: its centre lies
/// farther than 0.9 from the point `(4, 0, 2)`, where the large metal sphere
/// stands. Scaled by `10 * FRACTION_STEPS` on every axis, the offsets are whole
/// numbers and the comparison is exact.
pub open spec fn kept(a: int, b: int, dx: int, dz: int) -> bool {
    let u = FRACTION_STEPS as int;
    let x = 10 * u * (a - 4) + 9 * dx;
    let z = 10 * u * (b - 2) + 9 * dz;
    x * x + 4 * u * u + z * z > 81 * u * u
}

/// The kind of material a draw picks.
pub open spec fn kind_of(choice: int) -> MaterialKind {
    if choice < LAMBERTIAN_BELOW {
        MaterialKind::Lambertian
    } else if choice < METAL_BELOW {
        MaterialKind::Metal
    } else {
        MaterialKind::Dielectric
    }
}

pub open spec fn is_draw(k: u32) -> bool {
    k < FRACTION_STEPS
}

/// The kind of a small sphere's material.
pub open spec fn small_kind(m: SmallMaterial) -> MaterialKind {
    match m {
        SmallMaterial::Lambertian { .. } => MaterialKind::Lambertian,
        SmallMaterial::Metal { .. } => MaterialKind::Metal,
        SmallMaterial::Dielectric => MaterialKind::Dielectric,
    }
}

/// Every parameter draw of the material is a draw.
pub open spec fn material_draws_ok(m: SmallMaterial) -> bool {
    match m {
        SmallMaterial::Lambertian { r1, r2, g1, g2, b1, b2 } => is_draw(r1) && is_draw(r2)
            && is_draw(g1) && is_draw(g2) && is_draw(b1) && is_draw(b2),
        SmallMaterial::Metal { r, g, b, fuzz } => is_draw(r) && is_draw(g) && is_draw(b)
            && is_draw(fuzz),
        SmallMaterial::Dielectric => true,
    }
}

/// Whether the sphere of cell `(a, b)` with draws `dx`, `dz` is kept.
pub fn small_sphere_kept(a: i32, b: i32, dx: u32, dz: u32) -> (r: bool)
    requires
        in_grid(a as int),
        in_grid(b as int),
        is_draw(dx),
        is_draw(dz),
    ensures
        r == kept(a as int, b as int, dx as int, dz as int),
{
    let u = FRACTION_STEPS as i128;
    let x: i128 = 10 * u * (a as i128 - 4) + 9 * (dx as i128);
    let z: i128 = 10 * u * (b as i128 - 2) + 9 * (dz as i128);
    proof {
        assert(-160 * u <= x <= 160 * u);
        assert(-160 * u <= z <= 160 * u);
        assert(x * x <= 25600 * u * u) by (nonlinear_arith)
            requires
                -160 * u <= x <= 160 * u,
        ;
        assert(z * z <= 25600 * u * u) by (nonlinear_arith)
            requires
                -160 * u <= z <= 160 * u,
        ;
        assert(0 <= x * x) by (nonlinear_arith);
        assert(0 <= z * z) by (nonlinear_arith);
        assert(u * u == 281474976710656);
    }
    x * x + 4 * u * u + z * z > 81 * u * u
}

/// The kind of material that the draw `choice` picks: diffuse below 0.8,
/// metal below 0.95, glass above.
pub fn choose_material(choice: u32) -> (r: MaterialKind)
    ensures
        r == kind_of(choice as int),
{
    if choice < LAMBERTIAN_BELOW {
        MaterialKind::Lambertian
    } else if choice < METAL_BELOW {
        MaterialKind::Metal
    } else {
        MaterialKind::Dielectric
    }
}

fn draw() -> (r: u32)
    ensures
        is_draw(r),
{
    random_below(FRACTION_STEPS as usize) as u32
}

/// The number of grid cells: 22 by 22.
pub const GRID_CELLS: usize = 484;

/// The draws for one grid cell: the centre offsets `dx`, `dz`, the material
/// choice, and the draws for the material's parameters (as many of `p0..p5`
/// as its kind uses, in that order).
#[derive(Clone, Copy, Debug, PartialEq, Eq, Structural)]
pub struct CellDraw {
    pub dx: u32,
    pub dz: u32,
    pub choice: u32,
    pub p0: u32,
    pub p1: u32,
    pub p2: u32,
    pub p3: u32,
    pub p4: u32,
    pub p5: u32,
}

/// Every number of the cell's draws is a draw.
pub open spec fn cell_draw_ok(d: CellDraw) -> bool {
    is_draw(d.dx) && is_draw(d.dz) && is_draw(d.choice) && is_draw(d.p0) && is_draw(d.p1)
        && is_draw(d.p2) && is_draw(d.p3) && is_draw(d.p4) && is_draw(d.p5)
}

/// The material that the draws of a cell give: of the kind its choice picks,
/// with the parameter draws taken in order.
pub open spec fn material_of(d: CellDraw) -> SmallMaterial {
    match kind_of(d.choice as int) {
        MaterialKind::Lambertian => SmallMaterial::Lambertian {
            r1: d.p0,
            r2: d.p1,
            g1: d.p2,
            g2: d.p3,
            b1: d.p4,
            b2: d.p5,
        },
        MaterialKind::Metal => SmallMaterial::Metal { r: d.p0, g: d.p1, b: d.p2, fuzz: d.p3 },
        MaterialKind::Dielectric => SmallMaterial::Dielectric,
    }
}

/// The candidate sphere of cell `k`, counted row by row: cell
/// `(-11 + k / 22, -11 + k % 22)`.
pub open spec fn cell_sphere(k: int, d: CellDraw) -> SmallSphere {
    SmallSphere {
        a: (-11 + k / 22) as i32,
        b: (-11 + k % 22) as i32,
        dx: d.dx,
        dz: d.dz,
        material: material_of(d),
    }
}

/// The spheres of the first `n` cells: each cell's candidate, in order,
/// exactly when it is kept.
pub open spec fn spheres_from(draws: Seq<CellDraw>, n: int) -> Seq<SmallSphere>
    decreases n,
{
    if n <= 0 {
        Seq::empty()
    } else {
        let prev = spheres_from(draws, n - 1);
        let s = cell_sphere(n - 1, draws[n - 1]);
        if kept(s.a as int, s.b as int, s.dx as int, s.dz as int) {
            prev.push(s)
        } else {
            prev
        }
    }
}

/// The material that the draws of a cell give.
pub fn material_from(d: &CellDraw) -> (r: SmallMaterial)
    ensures
        r == material_of(*d),
{
    match choose_material(d.choice) {
        MaterialKind::Lambertian => SmallMaterial::Lambertian {
            r1: d.p0,
            r2: d.p1,
            g1: d.p2,
            g2: d.p3,
            b1: d.p4,
            b2: d.p5,
        },
        MaterialKind::Metal => SmallMaterial::Metal { r: d.p0, g: d.p1, b: d.p2, fuzz: d.p3 },
        MaterialKind::Dielectric => SmallMaterial::Dielectric,
    }
}

/// Cell `(a, b)` comes before cell `(c, d)`, row by row.
pub open spec fn cell_before(a: int, b: int, c: int, d: int) -> bool {
    a < c || (a == c && b < d)
}

/// A well-formed list of small spheres: in grid cells, at most one per cell
/// and in cell order, each kept and with its draws in range.
pub open spec fn small_spheres_ok(s: Seq<SmallSphere>) -> bool {
    &&& forall|k: int|
        0 <= k < s.len() ==> {
            let sp = #[trigger] s[k];
            &&& in_grid(sp.a as int)
            &&& in_grid(sp.b as int)
            &&& is_draw(sp.dx)
            &&& is_draw(sp.dz)
            &&& kept(sp.a as int, sp.b as int, sp.dx as int, sp.dz as int)
            &&& material_draws_ok(sp.material)
        }
    &&& forall|j: int, k: int|
        0 <= j < k < s.len() ==> cell_before(
            #[trigger] s[j].a as int,
            s[j].b as int,
            #[trigger] s[k].a as int,
            s[k].b as int,
        )
}

/// The small spheres of the random scene for the given draws, one per grid
/// cell row by row: the candidate of each cell, kept exactly when it stands
/// clear of the large metal sphere.
pub fn small_spheres_from_draws(draws: &Vec<CellDraw>) -> (r: Vec<SmallSphere>)
    requires
        draws@.len() == GRID_CELLS,
        forall|k: int| 0 <= k < draws@.len() ==> cell_draw_ok(#[trigger] draws@[k]),
    ensures
        r@ == spheres_from(draws@, GRID_CELLS as int),
        small_spheres_ok(r@),
{
    let mut spheres: Vec<SmallSphere> = Vec::new();
    let mut k: usize = 0;
    while k < GRID_CELLS
        invariant
            k <= GRID_CELLS,
            draws@.len() == GRID_CELLS,
            forall|q: int| 0 <= q < draws@.len() ==> cell_draw_ok(#[trigger] draws@[q]),
            spheres@ == spheres_from(draws@, k as int),
            small_spheres_ok(spheres@),
            forall|q: int|
                0 <= q < spheres@.len() ==> 22 * (#[trigger] spheres@[q].a + 11) + (
                spheres@[q].b + 11) < k,
        decreases GRID_CELLS - k,
    {
        let d = draws[k];
        let a: i32 = -11 + (k / 22) as i32;
        let b: i32 = -11 + (k % 22) as i32;
        let cand = SmallSphere { a, b, dx: d.dx, dz: d.dz, material: material_from(&d) };
        proof {
            assert(cand == cell_sphere(k as int, draws@[k as int]));
            assert(cell_draw_ok(draws@[k as int]));
            assert(material_draws_ok(cand.material));
        }
        let ghost before = spheres@;
        if small_sphere_kept(a, b, d.dx, d.dz) {
            spheres.push(cand);
            proof {
                let s = spheres@;
                assert forall|j: int, q: int|
                    0 <= j < q < s.len() implies cell_before(
                    #[trigger] s[j].a as int,
                    s[j].b as int,
                    #[trigger] s[q].a as int,
                    s[q].b as int,
                ) by {
                    assert(before[j] == s[j]);
                    if q < before.len() {
                        assert(before[q] == s[q]);
                    }
                }
                assert forall|q: int| 0 <= q < s.len() implies {
                    let sp = #[trigger] s[q];
                    &&& in_grid(sp.a as int)
                    &&& in_grid(sp.b as int)
                    &&& is_draw(sp.dx)
                    &&& is_draw(sp.dz)
                    &&& kept(sp.a as int, sp.b as int, sp.dx as int, sp.dz as int)
                    &&& material_draws_ok(sp.material)
                } by {
                    if q < before.len() {
                        assert(before[q] == s[q]);
                    }
                }
                assert forall|q: int| 0 <= q < s.len() implies 22 * (#[trigger] s[q].a + 11) + (
                s[q].b + 11) < k + 1 by {
                    if q < before.len() {
                        assert(before[q] == s[q]);
                    }
                }
            }
        }
        k += 1;
    }
    spheres
}

/// `s` is the layout that some draws for the whole grid give.
pub open spec fn drawn_layout(s: Seq<SmallSphere>) -> bool {
    exists|draws: Seq<CellDraw>|
        draws.len() == GRID_CELLS && (forall|k: int|
            0 <= k < draws.len() ==> cell_draw_ok(#[trigger] draws[k])) && s == spheres_from(
            draws,
            GRID_CELLS as int,
        )
}

/// The small spheres of the random scene, for freshly drawn numbers: those
/// that the draws of some grid leave standing.
pub fn random_small_spheres() -> (r: Vec<SmallSphere>)
    ensures
        small_spheres_ok(r@),
        drawn_layout(r@),
{
    let mut draws: Vec<CellDraw> = Vec::new();
    let mut k: usize = 0;
    while k < GRID_CELLS
        invariant
            k <= GRID_CELLS,
            draws@.len() == k,
            forall|q: int| 0 <= q < draws@.len() ==> cell_draw_ok(#[trigger] draws@[q]),
        decreases GRID_CELLS - k,
    {
        let dx = draw();
        let dz = draw();
        let choice = draw();
        let p0 = draw();
        let p1 = draw();
        let p2 = draw();
        let p3 = draw();
        let p4 = draw();
        let p5 = draw();
        draws.push(CellDraw { dx, dz, choice, p0, p1, p2, p3, p4, p5 });
        k += 1;
    }
    let r = small_spheres_from_draws(&draws);
    assert(drawn_layout(r@));
    r
}

/// Checks the image size and sample count of a render.
fn check_request(nx: usize, ny: usize, ns: usize) -> (r: Result<(), RenderError>)
    ensures
        r == request_result(nx as int, ny as int, ns as int),
{
    if nx == 0 || ny == 0 {
        return Err(RenderError::EmptyImage);
    }
    if ns == 0 {
        return Err(RenderError::NoSamples);
    }
    match image_len(nx, ny) {
        Some(_) => Ok(()),
        None => Err(RenderError::ImageTooLarge),
    }
}

/// The outcome of checking a render of `nx * ny` pixels with `ns` samples each.
pub open spec fn request_result(nx: int, ny: int, ns: int) -> Result<(), RenderError> {
    if nx == 0 || ny == 0 {
        Err(RenderError::EmptyImage)
    } else if ns == 0 {
        Err(RenderError::NoSamples)
    } else if nx * ny * 3 > usize::MAX {
        Err(RenderError::ImageTooLarge)
    } else {
        Ok(())
    }
}

/// Sets up a render of the random scene, `nx` by `ny` pixels with `ns`
/// samples each, against a black background.
pub fn render_random(nx: usize, ny: usize, ns: usize, max_ray_depth: i32) -> (r: Result<
    RenderPlan,
    RenderError,
>)
    ensures
        r is Err <==> request_result(nx as int, ny as int, ns as int) is Err,
        r is Err ==> r->Err_0 == request_result(nx as int, ny as int, ns as int)->Err_0,
        r is Ok ==> {
            let p = r->Ok_0;
            &&& p.width == nx
            &&& p.height == ny
            &&& p.samples == ns
            &&& p.max_ray_depth == max_ray_depth
            &&& p.environment == Environment::Void(Void {})
            &&& p.scene matches SceneSetup::Random(s) && small_spheres_ok(s@) && drawn_layout(s@)
        },
{
    match check_request(nx, ny, ns) {
        Err(e) => Err(e),
        Ok(()) => {
            let spheres = random_small_spheres();
            Ok(
                RenderPlan {
                    width: nx,
                    height: ny,
                    samples: ns,
                    max_ray_depth,
                    scene: SceneSetup::Random(spheres),
                    environment: Environment::Void(Void {}),
                },
            )
        },
    }
}

/// Sets up a render of the Cornell box, `nx` by `ny` pixels with `ns` samples
/// each, against a black background.
pub fn render_cornell(nx: usize, ny: usize, ns: usize, max_ray_depth: i32) -> (r: Result<
    RenderPlan,
    RenderError,
>)
    ensures
        r == match request_result(nx as int, ny as int, ns as int) {
            Err(e) => Err(e),
            Ok(_) => Ok(
                RenderPlan {
                    width: nx,
                    height: ny,
                    samples: ns,
                    max_ray_depth,
                    scene: SceneSetup::Cornell,
                    environment: Environment::Void(Void {}),
                },
            ),
        },
{
    match check_request(nx, ny, ns) {
        Err(e) => Err(e),
        Ok(()) => Ok(
            RenderPlan {
                width: nx,
                height: ny,
                samples: ns,
                max_ray_depth,
                scene: SceneSetup::Cornell,
                environment: Environment::Void(Void {}),
            },
        ),
    }
}

} // verus!
