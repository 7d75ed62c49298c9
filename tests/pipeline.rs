use plrt::{
    image_from_pixels, material_from, small_spheres_from_draws, CellDraw, GRID_CELLS,
    choose_material, color, face_material, image_len, material_kind, mesh_faces, pixel_of,
    pixel_position, random_small_spheres, render_cornell, render_random, small_sphere_kept,
    Environment, MaterialKind, MeshError, MeshFace, RenderError, SceneSetup, SmallMaterial, Void,
    FRACTION_STEPS,
};
use std::cell::Cell;

#[test]
fn image_len_counts_three_bytes_per_pixel() {
    assert_eq!(image_len(320, 320), Some(307200));
    assert_eq!(image_len(1, 1), Some(3));
    assert_eq!(image_len(0, 5), Some(0));
    assert_eq!(image_len(usize::MAX, 2), None);
    assert_eq!(image_len(usize::MAX / 3 + 1, 1), None);
}

#[test]
fn pixels_run_from_top_row_left_to_right() {
    assert_eq!(pixel_of(4, 3, 0), (0, 2));
    assert_eq!(pixel_of(4, 3, 3), (3, 2));
    assert_eq!(pixel_of(4, 3, 5), (1, 1));
    assert_eq!(pixel_of(4, 3, 11), (3, 0));
    assert_eq!(pixel_position(4, 3, 1, 1), 5);
    assert_eq!(pixel_position(4, 3, 0, 2), 0);
    let mut seen = vec![false; 12];
    for n in 0..12 {
        let (i, j) = pixel_of(4, 3, n);
        assert_eq!(pixel_position(4, 3, i, j), n);
        assert!(!seen[n]);
        seen[n] = true;
    }
}

#[test]
fn illumination_model_picks_material() {
    assert_eq!(material_kind(Some(7)), MaterialKind::Dielectric);
    assert_eq!(material_kind(Some(5)), MaterialKind::Metal);
    assert_eq!(material_kind(Some(2)), MaterialKind::Lambertian);
    assert_eq!(material_kind(None), MaterialKind::Lambertian);
}

#[test]
fn mesh_faces_follow_index_triples() {
    let indices = vec![0, 1, 2, 2, 1, 3, 0];
    let faces = mesh_faces(&indices, 12, 0).unwrap();
    assert_eq!(
        faces,
        vec![
            MeshFace { v0: 0, v1: 1, v2: 2, normal: None },
            MeshFace { v0: 2, v1: 1, v2: 3, normal: None },
        ]
    );
    let with_normals = mesh_faces(&indices, 12, 12).unwrap();
    assert_eq!(with_normals[1].normal, Some(2));
}

#[test]
fn mesh_faces_reject_missing_vertices() {
    let indices = vec![0, 1, 2, 0, 1, 4];
    assert_eq!(mesh_faces(&indices, 12, 0), Err(MeshError::VertexOutOfRange(1)));
    assert_eq!(
        mesh_faces(&vec![0, 1, 3], 12, 9),
        Ok(vec![MeshFace { v0: 0, v1: 1, v2: 3, normal: Some(0) }])
    );
    assert_eq!(mesh_faces(&vec![3, 1, 0], 12, 9), Err(MeshError::NormalOutOfRange(0)));
}

#[test]
fn face_material_checks_the_index() {
    assert_eq!(face_material(None, 0), Ok(None));
    assert_eq!(face_material(Some(1), 2), Ok(Some(1)));
    assert_eq!(face_material(Some(2), 2), Err(MeshError::MaterialOutOfRange(2)));
}

#[test]
fn cornell_plan_keeps_the_request() {
    let plan = render_cornell(320, 240, 25, 10).unwrap();
    assert_eq!(plan.width, 320);
    assert_eq!(plan.height, 240);
    assert_eq!(plan.samples, 25);
    assert_eq!(plan.max_ray_depth, 10);
    assert_eq!(plan.scene, SceneSetup::Cornell);
    assert_eq!(plan.environment, Environment::Void(Void {}));
}

#[test]
fn render_requests_are_checked() {
    assert_eq!(render_cornell(0, 10, 1, 1).unwrap_err(), RenderError::EmptyImage);
    assert_eq!(render_cornell(10, 0, 1, 1).unwrap_err(), RenderError::EmptyImage);
    assert_eq!(render_cornell(10, 10, 0, 1).unwrap_err(), RenderError::NoSamples);
    assert_eq!(render_random(usize::MAX, 1, 1, 1).unwrap_err(), RenderError::ImageTooLarge);
}

#[test]
fn random_plan_places_small_spheres_in_the_grid() {
    let plan = render_random(64, 48, 4, 5).unwrap();
    assert_eq!(plan.environment, Environment::Void(Void {}));
    let spheres = match plan.scene {
        SceneSetup::Random(s) => s,
        SceneSetup::Cornell => panic!("wrong scene"),
    };
    assert!(spheres.len() > 400);
    let mut last: Option<(i32, i32)> = None;
    for s in spheres.iter() {
        assert!(-11 <= s.a && s.a < 11 && -11 <= s.b && s.b < 11);
        assert!(s.dx < FRACTION_STEPS && s.dz < FRACTION_STEPS);
        assert!(small_sphere_kept(s.a, s.b, s.dx, s.dz));
        if let Some(prev) = last {
            assert!(prev < (s.a, s.b));
        }
        last = Some((s.a, s.b));
        if let SmallMaterial::Metal { fuzz, .. } = s.material {
            assert!(fuzz < FRACTION_STEPS);
        }
    }
    let again = random_small_spheres();
    assert_ne!(again, spheres);
}

#[test]
fn spheres_near_the_metal_sphere_are_dropped() {
    assert!(!small_sphere_kept(4, 2, 0, 0));
    assert!(!small_sphere_kept(3, 1, FRACTION_STEPS - 1, FRACTION_STEPS - 1));
    assert!(small_sphere_kept(-11, -11, 0, 0));
    // Centre (4.45, 0.2, 2.0): just inside the 0.9 limit.
    assert!(!small_sphere_kept(4, 2, FRACTION_STEPS / 2, 0));
    // Centre (4.9, 0.2, 2.0): distance sqrt(0.85) > 0.9.
    assert!(small_sphere_kept(4, 2, FRACTION_STEPS - 1, 0));
}

#[test]
fn material_draw_thresholds() {
    assert_eq!(choose_material(0), MaterialKind::Lambertian);
    assert_eq!(choose_material(13421772), MaterialKind::Lambertian);
    assert_eq!(choose_material(13421773), MaterialKind::Metal);
    assert_eq!(choose_material(15938354), MaterialKind::Metal);
    assert_eq!(choose_material(15938355), MaterialKind::Dielectric);
    assert_eq!(choose_material(FRACTION_STEPS - 1), MaterialKind::Dielectric);
}

type Ray = (f32, f32);
type Rgb = [f32; 3];

fn add_mul(e: Rgb, a: Rgb, c: Rgb) -> Rgb {
    [e[0] + a[0] * c[0], e[1] + a[1] * c[1], e[2] + a[2] * c[2]]
}

#[test]
fn empty_scene_shows_only_the_environment() {
    let sky = |r: &Ray| -> Rgb { [r.0, r.1, 0.5] };
    for k in 0..20 {
        let ray: Ray = (k as f32 * 0.1, 1.0 - k as f32 * 0.05);
        for depth_limit in [0, 1, 10] {
            let c = color(
                &ray,
                0,
                depth_limit,
                &|_r: &Ray| -> Option<u32> { None },
                &sky,
                &|_h: &u32| -> Rgb { [9.0; 3] },
                &|r: &Ray, _h: &u32| -> Option<(Rgb, Option<Ray>)> { Some(([1.0; 3], Some(*r))) },
                &add_mul,
            );
            assert_eq!(c, sky(&ray));
        }
    }
}

#[test]
fn depth_limit_bounds_recursion() {
    for limit in [0, 1, 5, 50] {
        let calls = Cell::new(0);
        let c = color(
            &(0.0f32, 1.0f32),
            0,
            limit,
            &|_r: &Ray| -> Option<u32> {
                calls.set(calls.get() + 1);
                Some(0)
            },
            &|_r: &Ray| -> Rgb { [0.0; 3] },
            &|_h: &u32| -> Rgb { [0.0; 3] },
            &|r: &Ray, _h: &u32| -> Option<(Rgb, Option<Ray>)> { Some(([1.0; 3], Some((-r.0, -r.1)))) },
            &add_mul,
        );
        assert_eq!(calls.get(), limit + 1);
        assert!(c.iter().all(|x| x.is_finite()));
    }
}

#[test]
fn hit_adds_emission_to_attenuated_bounce() {
    // One bounce off a surface that emits 0.5 and passes half the light, then
    // the environment's colour 2.0.
    let hits = Cell::new(0);
    let c = color(
        &(0.0f32, 0.0f32),
        0,
        10,
        &|_r: &Ray| -> Option<u32> {
            hits.set(hits.get() + 1);
            if hits.get() == 1 { Some(0) } else { None }
        },
        &|_r: &Ray| -> Rgb { [2.0; 3] },
        &|_h: &u32| -> Rgb { [0.5; 3] },
        &|r: &Ray, _h: &u32| -> Option<(Rgb, Option<Ray>)> { Some(([0.5; 3], Some(*r))) },
        &add_mul,
    );
    assert_eq!(c, [1.5; 3]);
    let absorbed = color(
        &(0.0f32, 0.0f32),
        0,
        10,
        &|_r: &Ray| -> Option<u32> { Some(0) },
        &|_r: &Ray| -> Rgb { [2.0; 3] },
        &|_h: &u32| -> Rgb { [0.25; 3] },
        &|_r: &Ray, _h: &u32| -> Option<(Rgb, Option<Ray>)> { Some(([0.5; 3], None)) },
        &add_mul,
    );
    assert_eq!(absorbed, [0.25; 3]);
}

#[test]
fn image_buffer_puts_top_row_first() {
    // Pixel (i, j) of a 2 by 2 image, listed from the bottom row up.
    let colors = vec![(1, 2, 3), (4, 5, 6), (7, 8, 9), (10, 11, 12)];
    let image = image_from_pixels(2, 2, &colors);
    assert_eq!(image, vec![7, 8, 9, 10, 11, 12, 1, 2, 3, 4, 5, 6]);
    for j in 0..2 {
        for i in 0..2 {
            let c = colors[j * 2 + i];
            let at = 3 * pixel_position(2, 2, i, j);
            assert_eq!((image[at], image[at + 1], image[at + 2]), c);
        }
    }
    assert_eq!(image_from_pixels(3, 1, &vec![(0, 0, 0); 3]).len(), 9);
    assert!(image_from_pixels(0, 4, &vec![]).is_empty());
}

fn cell(dx: u32, dz: u32, choice: u32) -> CellDraw {
    CellDraw { dx, dz, choice, p0: 10, p1: 11, p2: 12, p3: 13, p4: 14, p5: 15 }
}

#[test]
fn draws_give_one_sphere_per_clear_cell() {
    let draws = vec![cell(0, 0, 0); GRID_CELLS];
    let spheres = small_spheres_from_draws(&draws);
    // With zero offsets only cell (4, 2) stands too close to the metal sphere.
    assert_eq!(spheres.len(), GRID_CELLS - 1);
    assert_eq!((spheres[0].a, spheres[0].b), (-11, -11));
    assert_eq!((spheres[1].a, spheres[1].b), (-11, -10));
    assert_eq!((spheres[22].a, spheres[22].b), (-10, -11));
    assert!(spheres.iter().all(|s| (s.a, s.b) != (4, 2)));
    assert_eq!(
        spheres[0].material,
        SmallMaterial::Lambertian { r1: 10, r2: 11, g1: 12, g2: 13, b1: 14, b2: 15 }
    );
    let mut far = vec![cell(FRACTION_STEPS - 1, 0, 14000000); GRID_CELLS];
    far[0] = cell(5, 6, FRACTION_STEPS - 1);
    let spheres = small_spheres_from_draws(&far);
    // Offsets of 0.9 along x bring cell (3, 2) next to the metal sphere.
    assert_eq!(spheres.len(), GRID_CELLS - 1);
    assert!(spheres.iter().all(|s| (s.a, s.b) != (3, 2)));
    assert!(spheres.iter().any(|s| (s.a, s.b) == (4, 2)));
    assert_eq!(spheres[0].material, SmallMaterial::Dielectric);
    assert_eq!((spheres[0].dx, spheres[0].dz), (5, 6));
    assert_eq!(spheres[1].material, SmallMaterial::Metal { r: 10, g: 11, b: 12, fuzz: 13 });
}

#[test]
fn material_follows_the_choice_draw() {
    assert_eq!(material_from(&cell(0, 0, 15938355)), SmallMaterial::Dielectric);
    assert_eq!(
        material_from(&cell(0, 0, 13421773)),
        SmallMaterial::Metal { r: 10, g: 11, b: 12, fuzz: 13 }
    );
}

#[test]
fn depth_past_the_limit_returns_emission() {
    let asked = Cell::new(0);
    let c = color(
        &(0.0f32, 1.0f32),
        7,
        3,
        &|_r: &Ray| -> Option<u32> { Some(0) },
        &|_r: &Ray| -> Rgb { [0.0; 3] },
        &|_h: &u32| -> Rgb { [0.75; 3] },
        &|r: &Ray, _h: &u32| -> Option<(Rgb, Option<Ray>)> {
            asked.set(asked.get() + 1);
            Some(([1.0; 3], Some(*r)))
        },
        &add_mul,
    );
    assert_eq!(c, [0.75; 3]);
    assert_eq!(asked.get(), 0);
}
