use vstd::prelude::*;

verus! {

/// The kind of material a mesh material becomes, by its illumination model.
#[derive(Clone, Copy, Debug, PartialEq, Eq, Structural)]
pub enum MaterialKind {
    Lambertian,
    Metal,
    Dielectric,
}

/// Illumination model 7 (refraction) gives a dielectric, model 5 (reflection)
/// a metal, and any other model, or none, a diffuse material.
pub fn material_kind(illumination_model: Option<u8>) -> (r: MaterialKind)
    ensures
        r == (match illumination_model {
            Some(7) => MaterialKind::Dielectric,
            Some(5) => MaterialKind::Metal,
            _ => MaterialKind::Lambertian,
        }),
{
    match illumination_model {
        Some(7) => MaterialKind::Dielectric,
        Some(5) => MaterialKind::Metal,
        _ => MaterialKind::Lambertian,
    }
}

/// One triangle of a mesh: the indices of its three vertices, and the index of
/// the vertex whose normal it takes when the mesh has normals.
#[derive(Clone, Copy, Debug, PartialEq, Eq, Structural)]
pub struct MeshFace {
    pub v0: usize,
    pub v1: usize,
    pub v2: usize,
    pub normal: Option<usize>,
}

/// Why a mesh cannot be turned into triangles.
#[derive(Clone, Copy, Debug, PartialEq, Eq, Structural)]
pub enum MeshError {
    /// The face with this number names a vertex past the end of the positions.
    VertexOutOfRange(usize),
    /// The face with this number takes a normal past the end of the normals.
    NormalOutOfRange(usize),
    /// The mesh names a material past the end of the material list.
    MaterialOutOfRange(usize),
}

/// Vertex `i` has three coordinates within a flat list of `len` numbers.
pub open spec fn has_vertex(len: int, i: int) -> bool {
    3 * i + 3 <= len
}

/// Face `f` of the index list `indices`.
pub open spec fn face_spec(indices: Seq<u32>, f: int, n_normals: int) -> MeshFace {
    MeshFace {
        v0: indices[3 * f] as usize,
        v1: indices[3 * f + 1] as usize,
        v2: indices[3 * f + 2] as usize,
        normal: if n_normals > 0 {
            Some(indices[3 * f] as usize)
        } else {
            None
        },
    }
}

/// The three vertices of face `f` exist.
pub open spec fn face_vertices_exist(indices: Seq<u32>, f: int, n_positions: int) -> bool {
    &&& has_vertex(n_positions, indices[3 * f] as int)
    &&& has_vertex(n_positions, indices[3 * f + 1] as int)
    &&& has_vertex(n_positions, indices[3 * f + 2] as int)
}

/// Face `f` names only vertices (and a normal) that exist.
pub open spec fn face_in_range(indices: Seq<u32>, f: int, n_positions: int, n_normals: int) -> bool {
    &&& face_vertices_exist(indices, f, n_positions)
    &&& (n_normals > 0 ==> has_vertex(n_normals, indices[3 * f] as int))
}

fn vertex_exists(len: usize, i: u32) -> (r: bool)
    ensures
        r == has_vertex(len as int, i as int),
{
    (i as u64) * 3 + 3 <= len as u64
}

/// The triangles of a mesh whose faces are listed as consecutive triples of
/// vertex indices (a trailing incomplete triple is ignored), over flat lists
/// of `n_positions` position and `n_normals` normal coordinates. Fails on the
/// first face that names a missing vertex or normal.
pub fn mesh_faces(indices: &Vec<u32>, n_positions: usize, n_normals: usize) -> (r: Result<
    Vec<MeshFace>,
    MeshError,
>)
    ensures
        r is Ok <==> forall|f: int|
            0 <= f < indices@.len() / 3 ==> #[trigger] face_in_range(
                indices@,
                f,
                n_positions as int,
                n_normals as int,
            ),
        r is Ok ==> r->Ok_0@.len() == indices@.len() / 3 && forall|f: int|
            0 <= f < indices@.len() / 3 ==> #[trigger] r->Ok_0@[f] == face_spec(
                indices@,
                f,
                n_normals as int,
            ),
        r is Err ==> match r->Err_0 {
            MeshError::VertexOutOfRange(f) => {
                &&& f < indices@.len() / 3
                &&& !face_vertices_exist(indices@, f as int, n_positions as int)
                &&& forall|g: int|
                    0 <= g < f ==> #[trigger] face_in_range(
                        indices@,
                        g,
                        n_positions as int,
                        n_normals as int,
                    )
            },
            MeshError::NormalOutOfRange(f) => {
                &&& f < indices@.len() / 3
                &&& face_vertices_exist(indices@, f as int, n_positions as int)
                &&& !face_in_range(indices@, f as int, n_positions as int, n_normals as int)
                &&& forall|g: int|
                    0 <= g < f ==> #[trigger] face_in_range(
                        indices@,
                        g,
                        n_positions as int,
                        n_normals as int,
                    )
            },
            MeshError::MaterialOutOfRange(_) => false,
        },
{
    let n_faces = indices.len() / 3;
    let mut faces: Vec<MeshFace> = Vec::new();
    let mut f: usize = 0;
    while f < n_faces
        invariant
            n_faces == indices@.len() / 3,
            f <= n_faces,
            faces@.len() == f,
            forall|g: int|
                0 <= g < f ==> #[trigger] face_in_range(
                    indices@,
                    g,
                    n_positions as int,
                    n_normals as int,
                ),
            forall|g: int| 0 <= g < f ==> #[trigger] faces@[g] == face_spec(indices@, g, n_normals as int),
        decreases n_faces - f,
    {
        proof {
            assert(indices@.len() == indices.len());
            assert(3 * f + 2 < indices@.len()) by (nonlinear_arith)
                requires
                    f < n_faces,
                    n_faces == indices@.len() / 3,
            ;
        }
        let i0 = indices[3 * f];
        let i1 = indices[3 * f + 1];
        let i2 = indices[3 * f + 2];
        if !(vertex_exists(n_positions, i0) && vertex_exists(n_positions, i1) && vertex_exists(
            n_positions,
            i2,
        )) {
            assert(!face_in_range(indices@, f as int, n_positions as int, n_normals as int));
            return Err(MeshError::VertexOutOfRange(f));
        }
        let normal = if n_normals > 0 {
            if !vertex_exists(n_normals, i0) {
                assert(!face_in_range(indices@, f as int, n_positions as int, n_normals as int));
                return Err(MeshError::NormalOutOfRange(f));
            }
            Some(i0 as usize)
        } else {
            None
        };
        faces.push(MeshFace { v0: i0 as usize, v1: i1 as usize, v2: i2 as usize, normal });
        f += 1;
    }
    Ok(faces)
}

/// The material of a mesh: `Ok(None)` for a mesh without one, which takes the
/// default material, or its index, which must name one of `n_materials`.
pub fn face_material(material_id: Option<usize>, n_materials: usize) -> (r: Result<
    Option<usize>,
    MeshError,
>)
    ensures
        r == (match material_id {
            None => Ok(None),
            Some(id) => if id < n_materials {
                Ok(Some(id))
            } else {
                Err(MeshError::MaterialOutOfRange(id))
            },
        }),
{
    match material_id {
        None => Ok(None),
        Some(id) => if id < n_materials {
            Ok(Some(id))
        } else {
            Err(MeshError::MaterialOutOfRange(id))
        },
    }
}

} // verus!
