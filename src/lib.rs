//! Verified core of a small path tracer: bounding boxes, the bounding volume
//! hierarchy built over a scene's primitives, nearest-hit selection, and the
//! bookkeeping around it (pixel layout, bounce limits, mesh faces, scene set-up).
//!
//! Coordinates and ray distances are carried as order codes: integers that
//! order exactly as the `f32` values they stand for. Everything the hierarchy
//! decides depends only on that order, so it is decided here, on integers, and
//! proved.
mod aabb;
mod bvh;
mod codes;
mod hit;
mod integrator;
mod layout;
mod mesh;
mod random;
mod scenes;

pub use aabb::{Aabb, Point3, bounding_box_of_points, surrounding_box};
pub use bvh::{BuildError, BvhNode, BvhTree, NodeId, group_bounding_box};
pub use hit::{KeyedHit, nearest_hit};
pub use integrator::color;
pub use layout::{image_from_pixels, image_len, pixel_of, pixel_position};
pub use mesh::{MaterialKind, MeshError, MeshFace, face_material, material_kind, mesh_faces};
pub use scenes::{
    Environment, RenderError, RenderPlan, SceneSetup, SimpleSky, SmallMaterial, SmallSphere, Void,
    CellDraw, choose_material, material_from, random_small_spheres, render_cornell, render_random,
    small_sphere_kept, small_spheres_from_draws, GRID_CELLS,
    FRACTION_STEPS, LAMBERTIAN_BELOW, METAL_BELOW,
};
pub use codes::{code_bits, order_code, SIGN_BIT};
