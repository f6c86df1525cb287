//! Immutable CPU meshes shared by user entities and uploaded by the engine.
use vstd::prelude::*;
use std::marker::PhantomData;
use std::sync::Arc;
use crate::dimension::{Dimension, ThreeD, TwoD};
use crate::model::{
    flat_vertex,
    is_finite_bits,
    lemma_vertex_finite_parts,
    negate,
    negated,
    vertex_finite,
    vertex_is_finite,
    ModelVertex,
    HALF,
    MINUS_ONE,
    ONE,
    ZERO,
};
use crate::renderer::{EntityType, VertexIndicie};

verus! {

/// `std::sync::Arc::clone`: a new pointer to the same allocation, so the
/// clone holds the same value.
#[verifier::external_body]
fn share<T>(a: &Arc<T>) -> (r: Arc<T>)
    ensures
        r == *a,
{
    Arc::clone(a)
}

/// Why `Mesh::new` refused its input.
#[derive(PartialEq, Eq, Structural, Clone, Copy, Debug)]
pub enum MeshError {
    /// A mesh must have vertices.
    NoVertices,
    /// Indices must describe complete triangles.
    IncompleteTriangles,
    /// A mesh index is out of bounds.
    IndexOutOfBounds,
    /// Mesh vertices must be finite.
    NonFiniteVertex,
}

/// Every index names one of `n` vertices.
pub open spec fn indices_in_bounds(is: Seq<u16>, n: nat) -> bool {
    forall|k: int| 0 <= k < is.len() ==> (#[trigger] is[k] as nat) < n
}

/// Every vertex has finite coordinates.
pub open spec fn all_finite(vs: Seq<ModelVertex>) -> bool {
    forall|k: int| 0 <= k < vs.len() ==> vertex_is_finite(#[trigger] vs[k])
}

/// The shape every mesh has: at least one vertex, and whole triangles whose
/// indices name its vertices.
pub open spec fn well_shaped(vs: Seq<ModelVertex>, is: Seq<u16>) -> bool {
    &&& vs.len() > 0
    &&& is.len() > 0
    &&& is.len() % 3 == 0
    &&& indices_in_bounds(is, vs.len())
}

/// The first rule, in the order they are checked, that vertices `vs` and
/// indices `is` break, if any.
pub open spec fn mesh_error(vs: Seq<ModelVertex>, is: Seq<u16>) -> Option<MeshError> {
    if vs.len() == 0 {
        Some(MeshError::NoVertices)
    } else if is.len() == 0 || is.len() % 3 != 0 {
        Some(MeshError::IncompleteTriangles)
    } else if !indices_in_bounds(is, vs.len()) {
        Some(MeshError::IndexOutOfBounds)
    } else if !all_finite(vs) {
        Some(MeshError::NonFiniteVertex)
    } else {
        None
    }
}

/// The triangle fan over `segments` segments around vertex 0: triangle `t`
/// is `0, t + 1, t + 2`.
pub open spec fn fan_indices(segments: nat) -> Seq<u16>
    decreases segments,
{
    if segments == 0 {
        Seq::empty()
    } else {
        fan_indices((segments - 1) as nat) + seq![0u16, segments as u16, (segments + 1) as u16]
    }
}

/// The vertices of a filled circle: its center, then each point of `ring`.
pub open spec fn circle_vertices(ring: Seq<[u32; 2]>) -> Seq<ModelVertex> {
    seq![flat_vertex(ZERO, ZERO, [HALF, HALF])] + ring.map_values(
        |p: [u32; 2]| flat_vertex(p[0], p[1], [ZERO, ZERO]),
    )
}

/// The corners of a rectangle hanging from the origin to `(right, bottom)`.
pub open spec fn rectangle_vertices(right: u32, bottom: u32) -> Seq<ModelVertex> {
    seq![
        flat_vertex(ZERO, ZERO, [ZERO, ONE]),
        flat_vertex(right, ZERO, [ONE, ONE]),
        flat_vertex(ZERO, bottom, [ZERO, ZERO]),
        flat_vertex(right, bottom, [ONE, ZERO]),
    ]
}

pub open spec fn rectangle_indices() -> Seq<u16> {
    seq![0u16, 2, 1, 2, 3, 1]
}

pub open spec fn cube_vertex(position: [u32; 3], tex: [u32; 2], normal: [u32; 3]) -> ModelVertex {
    ModelVertex { position, tex_coords: tex, normal }
}

/// The four corners of each face of a box centered at the origin with half
/// extents `w`, `h`, `l`: front, back, left, right, top, bottom, each with
/// its outward normal.
pub open spec fn cube_vertices(w: u32, h: u32, l: u32) -> Seq<ModelVertex> {
    let (nw, nh, nl) = (negated(w), negated(h), negated(l));
    seq![
        cube_vertex([nw, nh, l], [ZERO, ONE], [ZERO, ZERO, ONE]),
        cube_vertex([w, nh, l], [ONE, ONE], [ZERO, ZERO, ONE]),
        cube_vertex([w, h, l], [ONE, ZERO], [ZERO, ZERO, ONE]),
        cube_vertex([nw, h, l], [ZERO, ZERO], [ZERO, ZERO, ONE]),
        cube_vertex([w, nh, nl], [ZERO, ONE], [ZERO, ZERO, MINUS_ONE]),
        cube_vertex([nw, nh, nl], [ONE, ONE], [ZERO, ZERO, MINUS_ONE]),
        cube_vertex([nw, h, nl], [ONE, ZERO], [ZERO, ZERO, MINUS_ONE]),
        cube_vertex([w, h, nl], [ZERO, ZERO], [ZERO, ZERO, MINUS_ONE]),
        cube_vertex([nw, nh, nl], [ZERO, ONE], [MINUS_ONE, ZERO, ZERO]),
        cube_vertex([nw, nh, l], [ONE, ONE], [MINUS_ONE, ZERO, ZERO]),
        cube_vertex([nw, h, l], [ONE, ZERO], [MINUS_ONE, ZERO, ZERO]),
        cube_vertex([nw, h, nl], [ZERO, ZERO], [MINUS_ONE, ZERO, ZERO]),
        cube_vertex([w, nh, l], [ZERO, ONE], [ONE, ZERO, ZERO]),
        cube_vertex([w, nh, nl], [ONE, ONE], [ONE, ZERO, ZERO]),
        cube_vertex([w, h, nl], [ONE, ZERO], [ONE, ZERO, ZERO]),
        cube_vertex([w, h, l], [ZERO, ZERO], [ONE, ZERO, ZERO]),
        cube_vertex([nw, h, l], [ZERO, ONE], [ZERO, ONE, ZERO]),
        cube_vertex([w, h, l], [ONE, ONE], [ZERO, ONE, ZERO]),
        cube_vertex([w, h, nl], [ONE, ZERO], [ZERO, ONE, ZERO]),
        cube_vertex([nw, h, nl], [ZERO, ZERO], [ZERO, ONE, ZERO]),
        cube_vertex([nw, nh, nl], [ZERO, ONE], [ZERO, MINUS_ONE, ZERO]),
        cube_vertex([w, nh, nl], [ONE, ONE], [ZERO, MINUS_ONE, ZERO]),
        cube_vertex([w, nh, l], [ONE, ZERO], [ZERO, MINUS_ONE, ZERO]),
        cube_vertex([nw, nh, l], [ZERO, ZERO], [ZERO, MINUS_ONE, ZERO]),
    ]
}

/// Two triangles per face of `cube_vertices`.
pub open spec fn cube_indices() -> Seq<u16> {
    seq![
        0u16, 1, 2, 0, 2, 3,
        4, 5, 6, 4, 6, 7,
        8, 9, 10, 8, 10, 11,
        12, 13, 14, 12, 14, 15,
        16, 17, 18, 16, 18, 19,
        20, 21, 22, 20, 22, 23,
    ]
}

proof fn lemma_fan_indices(segments: nat)
    requires
        segments + 1 <= u16::MAX,
    ensures
        fan_indices(segments).len() == 3 * segments,
        forall|k: int| 0 <= k < fan_indices(segments).len() ==> #[trigger] fan_indices(segments)[k] <= segments + 1,
    decreases segments,
{
    if segments > 0 {
        lemma_fan_indices((segments - 1) as nat);
        let f = fan_indices(segments);
        let g = fan_indices((segments - 1) as nat);
        assert forall|k: int| 0 <= k < f.len() implies #[trigger] f[k] <= segments + 1 by {
            if k < g.len() {
                assert(f[k] == g[k]);
            }
        }
    }
}

proof fn lemma_constants_finite()
    ensures
        is_finite_bits(ZERO),
        is_finite_bits(HALF),
        is_finite_bits(ONE),
        is_finite_bits(MINUS_ONE),
{
    assert((0u32 >> 23u32) & 0xffu32 != 0xffu32 && (0x3f00_0000u32 >> 23u32) & 0xffu32 != 0xffu32
        && (0x3f80_0000u32 >> 23u32) & 0xffu32 != 0xffu32 && (0xbf80_0000u32 >> 23u32) & 0xffu32
        != 0xffu32) by (bit_vector);
}

proof fn lemma_negated_finite(b: u32)
    ensures
        is_finite_bits(negated(b)) == is_finite_bits(b),
{
    assert(((b ^ 0x8000_0000u32) >> 23u32) & 0xffu32 == (b >> 23u32) & 0xffu32) by (bit_vector);
}

/// A filled circle is a valid mesh exactly when its rim points are finite:
/// its fan has complete triangles that name only its vertices.
pub proof fn law_circle_is_valid_mesh(ring: Seq<[u32; 2]>)
    requires
        2 <= ring.len() <= u16::MAX,
    ensures
        mesh_error(circle_vertices(ring), fan_indices((ring.len() - 1) as nat)) == if forall|i: int|
            0 <= i < ring.len() ==> is_finite_bits((#[trigger] ring[i])[0]) && is_finite_bits(
                ring[i][1],
            ) {
            None
        } else {
            Some(MeshError::NonFiniteVertex)
        },
{
    let vs = circle_vertices(ring);
    let is = fan_indices((ring.len() - 1) as nat);
    lemma_fan_indices((ring.len() - 1) as nat);
    lemma_constants_finite();
    assert(indices_in_bounds(is, vs.len()));
    assert(vs[0] == flat_vertex(ZERO, ZERO, [HALF, HALF]));
    lemma_vertex_finite_parts(vs[0]);
    if forall|i: int| 0 <= i < ring.len() ==> is_finite_bits((#[trigger] ring[i])[0]) && is_finite_bits(ring[i][1]) {
        assert forall|j: int| 0 <= j < vs.len() implies vertex_is_finite(#[trigger] vs[j]) by {
            if j > 0 {
                let p = ring[j - 1];
                assert(vs[j] == flat_vertex(p[0], p[1], [ZERO, ZERO]));
                assert(is_finite_bits(p[0]) && is_finite_bits(p[1]));
                lemma_vertex_finite_parts(vs[j]);
            }
        }
    } else {
        let i = choose|i: int| 0 <= i < ring.len() && !(is_finite_bits((#[trigger] ring[i])[0]) && is_finite_bits(ring[i][1]));
        let p = ring[i];
        assert(vs[i + 1] == flat_vertex(p[0], p[1], [ZERO, ZERO]));
        lemma_vertex_finite_parts(vs[i + 1]);
    }
}

/// A rectangle is a valid mesh exactly when its far corner is finite.
pub proof fn law_rectangle_is_valid_mesh(right: u32, bottom: u32)
    ensures
        mesh_error(rectangle_vertices(right, bottom), rectangle_indices()) == if is_finite_bits(
            right,
        ) && is_finite_bits(bottom) {
            None
        } else {
            Some(MeshError::NonFiniteVertex)
        },
{
    let vs = rectangle_vertices(right, bottom);
    let is = rectangle_indices();
    lemma_constants_finite();
    assert(indices_in_bounds(is, vs.len()));
    lemma_vertex_finite_parts(vs[0]);
    lemma_vertex_finite_parts(vs[1]);
    lemma_vertex_finite_parts(vs[2]);
    lemma_vertex_finite_parts(vs[3]);
    if is_finite_bits(right) && is_finite_bits(bottom) {
        assert forall|j: int| 0 <= j < vs.len() implies vertex_is_finite(#[trigger] vs[j]) by {
            assert(j == 0 || j == 1 || j == 2 || j == 3);
        }
    } else {
        assert(!vertex_is_finite(vs[3]));
    }
}

/// A box is a valid mesh exactly when its half extents are finite.
pub proof fn law_cube_is_valid_mesh(w: u32, h: u32, l: u32)
    ensures
        mesh_error(cube_vertices(w, h, l), cube_indices()) == if is_finite_bits(w) && is_finite_bits(
            h,
        ) && is_finite_bits(l) {
            None
        } else {
            Some(MeshError::NonFiniteVertex)
        },
{
    let vs = cube_vertices(w, h, l);
    let is = cube_indices();
    lemma_constants_finite();
    lemma_negated_finite(w);
    lemma_negated_finite(h);
    lemma_negated_finite(l);
    assert(indices_in_bounds(is, vs.len()));
    assert forall|j: int| 0 <= j < vs.len() implies vertex_is_finite(#[trigger] vs[j]) == (
    is_finite_bits(w) && is_finite_bits(h) && is_finite_bits(l)) by {
        lemma_vertex_finite_parts(vs[j]);
    }
    if !(is_finite_bits(w) && is_finite_bits(h) && is_finite_bits(l)) {
        assert(!vertex_is_finite(vs[2]));
    }
}

/// Every coordinate of `v` (three of position, two of texture, three of
/// normal) is finite, each named one by one.
pub open spec fn each_coordinate_finite(v: ModelVertex) -> bool {
    &&& is_finite_bits(v.position[0])
    &&& is_finite_bits(v.position[1])
    &&& is_finite_bits(v.position[2])
    &&& is_finite_bits(v.tex_coords[0])
    &&& is_finite_bits(v.tex_coords[1])
    &&& is_finite_bits(v.normal[0])
    &&& is_finite_bits(v.normal[1])
    &&& is_finite_bits(v.normal[2])
}

/// A mesh is accepted only when every coordinate of every vertex is finite,
/// texture coordinates included; once the shape rules hold, one coordinate
/// that is not finite, anywhere, refuses the mesh as `NonFiniteVertex`, and
/// a well-shaped mesh whose coordinates are all finite is accepted.
pub proof fn law_mesh_coordinates_finite(vs: Seq<ModelVertex>, is: Seq<u16>)
    ensures
        mesh_error(vs, is) is None ==> forall|k: int|
            0 <= k < vs.len() ==> each_coordinate_finite(#[trigger] vs[k]),
        well_shaped(vs, is) && (exists|k: int|
            0 <= k < vs.len() && !each_coordinate_finite(#[trigger] vs[k])) ==> mesh_error(vs, is)
            == Some(MeshError::NonFiniteVertex),
        well_shaped(vs, is) && (forall|k: int|
            0 <= k < vs.len() ==> each_coordinate_finite(#[trigger] vs[k])) ==> mesh_error(vs, is)
            is None,
{
    assert forall|k: int| 0 <= k < vs.len() implies vertex_is_finite(#[trigger] vs[k])
        == each_coordinate_finite(vs[k]) by {
        lemma_vertex_finite_parts(vs[k]);
    }
}

/// The six indices that face `f` of a box contributes.
pub open spec fn face_indices(is: Seq<u16>, f: int) -> Seq<u16> {
    is.subrange(6 * f, 6 * f + 6)
}

/// Corner `c` of face `f` of a box.
pub open spec fn face_corner(vs: Seq<ModelVertex>, f: int, c: int) -> ModelVertex {
    vs[4 * f + c]
}

/// Each face `f` of a box is two triangles that tile its quad of corners
/// `4f` to `4f + 3`: `4f, 4f + 1, 4f + 2` and `4f, 4f + 2, 4f + 3`, which
/// share the diagonal from corner `4f` to `4f + 2`, turn the same way, and
/// between them use all four corners. The four corners of a face share its
/// outward normal.
pub proof fn law_cube_faces_tiled(w: u32, h: u32, l: u32)
    ensures
        cube_indices().len() == 36,
        cube_vertices(w, h, l).len() == 24,
        forall|f: int|
            0 <= f < 6 ==> #[trigger] face_indices(cube_indices(), f) == seq![
                (4 * f) as u16,
                (4 * f + 1) as u16,
                (4 * f + 2) as u16,
                (4 * f) as u16,
                (4 * f + 2) as u16,
                (4 * f + 3) as u16,
            ],
        forall|f: int, c: int|
            0 <= f < 6 && 0 <= c < 4 ==> (#[trigger] face_corner(cube_vertices(w, h, l), f, c)).normal
                == face_corner(cube_vertices(w, h, l), f, 0).normal,
{
    let is = cube_indices();
    let vs = cube_vertices(w, h, l);
    assert forall|f: int| 0 <= f < 6 implies #[trigger] face_indices(is, f) == seq![
        (4 * f) as u16,
        (4 * f + 1) as u16,
        (4 * f + 2) as u16,
        (4 * f) as u16,
        (4 * f + 2) as u16,
        (4 * f + 3) as u16,
    ] by {
        assert(f == 0 || f == 1 || f == 2 || f == 3 || f == 4 || f == 5);
        assert(face_indices(is, f) =~= seq![
            (4 * f) as u16,
            (4 * f + 1) as u16,
            (4 * f + 2) as u16,
            (4 * f) as u16,
            (4 * f + 2) as u16,
            (4 * f + 3) as u16,
        ]);
    }
    assert forall|f: int, c: int| 0 <= f < 6 && 0 <= c < 4 implies (#[trigger] face_corner(vs, f, c)).normal
        == face_corner(vs, f, 0).normal by {
        assert(f == 0 || f == 1 || f == 2 || f == 3 || f == 4 || f == 5);
        assert(c == 0 || c == 1 || c == 2 || c == 3);
    }
}

/// The three indices of triangle `t` of an index list.
pub open spec fn triangle_indices(is: Seq<u16>, t: int) -> Seq<u16> {
    is.subrange(3 * t, 3 * t + 3)
}

/// A filled circle over `segments` rim segments is a fan of `segments`
/// triangles around the center, vertex 0: triangle `t` joins the center to
/// the consecutive rim vertices `t + 1` and `t + 2`, so neighbouring
/// triangles share an edge and the fan runs once along the rim.
pub proof fn law_circle_fan(segments: nat)
    requires
        segments + 1 <= u16::MAX,
    ensures
        fan_indices(segments).len() == 3 * segments,
        forall|t: int|
            0 <= t < segments ==> #[trigger] triangle_indices(fan_indices(segments), t) == seq![
                0u16,
                (t + 1) as u16,
                (t + 2) as u16,
            ],
    decreases segments,
{
    lemma_fan_indices(segments);
    if segments > 0 {
        let s1 = (segments - 1) as nat;
        law_circle_fan(s1);
        let f = fan_indices(segments);
        let g = fan_indices(s1);
        assert forall|t: int| 0 <= t < segments implies #[trigger] triangle_indices(f, t) == seq![
            0u16,
            (t + 1) as u16,
            (t + 2) as u16,
        ] by {
            if t < s1 {
                assert(triangle_indices(g, t) == seq![0u16, (t + 1) as u16, (t + 2) as u16]);
                assert(triangle_indices(f, t) =~= triangle_indices(g, t));
            } else {
                assert(triangle_indices(f, t) =~= seq![0u16, (t + 1) as u16, (t + 2) as u16]);
            }
        }
    }
}

/// The corners a triangle `t` of index list `is` names.
pub open spec fn triangle(is: Seq<u16>, t: int) -> Set<u16> {
    set![is[3 * t], is[3 * t + 1], is[3 * t + 2]]
}

/// A rectangle is two triangles that tile it: top-left, top-right and
/// bottom-left, then top-right, bottom-left and bottom-right. They share the
/// top-right / bottom-left diagonal and between them use all four corners.
pub proof fn law_rectangle_tiled(right: u32, bottom: u32)
    ensures
        rectangle_indices().len() == 6,
        rectangle_vertices(right, bottom)[0].position == [ZERO, ZERO, ZERO],
        rectangle_vertices(right, bottom)[1].position == [right, ZERO, ZERO],
        rectangle_vertices(right, bottom)[2].position == [ZERO, bottom, ZERO],
        rectangle_vertices(right, bottom)[3].position == [right, bottom, ZERO],
        triangle(rectangle_indices(), 0) == set![0u16, 1u16, 2u16],
        triangle(rectangle_indices(), 1) == set![1u16, 2u16, 3u16],
{
    let is = rectangle_indices();
    assert(triangle(is, 0) =~= set![0u16, 1u16, 2u16]);
    assert(triangle(is, 1) =~= set![1u16, 2u16, 3u16]);
}

/// A cheap-to-clone immutable mesh. Create once and reuse in render data.
pub struct Mesh<D: Dimension> {
    pub(crate) data: Arc<VertexIndicie>,
    dimension: PhantomData<D>,
}

impl<D: Dimension> Clone for Mesh<D> {
    fn clone(&self) -> (m: Self)
        ensures
            m.vertices_view() == self.vertices_view(),
            m.indices_view() == self.indices_view(),
            m.kind() == self.kind(),
            well_shaped(m.vertices_view(), m.indices_view()),
    {
        proof {
            use_type_invariant(self);
        }
        Mesh { data: share(&self.data), dimension: PhantomData }
    }
}

impl<D: Dimension> Mesh<D> {
    /// Every mesh, however made, is well shaped.
    #[verifier::type_invariant]
    spec fn shaped(self) -> bool {
        well_shaped(self.data.vertices_view(), self.data.indices_view())
    }

    pub closed spec fn vertices_view(&self) -> Seq<ModelVertex> {
        self.data.vertices_view()
    }

    pub closed spec fn indices_view(&self) -> Seq<u16> {
        self.data.indices_view()
    }

    /// What the mesh was made from.
    pub closed spec fn kind(&self) -> EntityType {
        self.data.kind()
    }

    /// Vertices are in world units; indices describe triangles. Refuses a
    /// mesh without vertices, with an incomplete triangle, with an index out
    /// of bounds or with a coordinate that is not finite, checked in that
    /// order.
    pub fn new(vertices: Vec<ModelVertex>, indices: Vec<u16>) -> (r: Result<Self, MeshError>)
        ensures
            match r {
                Ok(m) => {
                    &&& mesh_error(vertices@, indices@) is None
                    &&& well_shaped(m.vertices_view(), m.indices_view())
                    &&& m.kind() == EntityType::VertIndicie
                    &&& m.vertices_view() == vertices@
                    &&& m.indices_view() == indices@
                },
                Err(e) => mesh_error(vertices@, indices@) == Some(e),
            },
    {
        if vertices.len() == 0 {
            return Err(MeshError::NoVertices);
        }
        if indices.len() == 0 || indices.len() % 3 != 0 {
            return Err(MeshError::IncompleteTriangles);
        }
        let n = vertices.len();
        let mut k: usize = 0;
        while k < indices.len()
            invariant
                n == vertices@.len(),
                n > 0,
                indices@.len() > 0,
                indices@.len() % 3 == 0,
                k <= indices@.len(),
                forall|j: int| 0 <= j < k ==> (#[trigger] indices@[j] as nat) < n,
            decreases indices@.len() - k,
        {
            if indices[k] as usize >= n {
                proof {
                    assert(!((indices@[k as int] as nat) < n));
                }
                return Err(MeshError::IndexOutOfBounds);
            }
            k = k + 1;
        }
        let mut k: usize = 0;
        while k < n
            invariant
                n == vertices@.len(),
                n > 0,
                indices@.len() > 0,
                indices@.len() % 3 == 0,
                indices_in_bounds(indices@, n as nat),
                k <= n,
                forall|j: int| 0 <= j < k ==> vertex_is_finite(#[trigger] vertices@[j]),
            decreases n - k,
        {
            if !vertex_finite(&vertices[k]) {
                proof {
                    assert(!vertex_is_finite(vertices@[k as int]));
                }
                return Err(MeshError::NonFiniteVertex);
            }
            k = k + 1;
        }
        let data = VertexIndicie::new(vertices, indices, EntityType::VertIndicie);
        Ok(Self::from_data(data))
    }

    pub(crate) fn from_data(data: VertexIndicie) -> (m: Self)
        requires
            well_shaped(data.vertices_view(), data.indices_view()),
        ensures
            m.vertices_view() == data.vertices_view(),
            m.indices_view() == data.indices_view(),
            m.kind() == data.kind(),
    {
        Mesh { data: Arc::new(data), dimension: PhantomData }
    }

    /// The vertices, which a mesh always has.
    pub fn vertices(&self) -> (r: &[ModelVertex])
        ensures
            r@ == self.vertices_view(),
            well_shaped(self.vertices_view(), self.indices_view()),
    {
        proof {
            use_type_invariant(self);
        }
        self.data.vertex_slice()
    }

    /// The indices, in whole triangles that name vertices of the mesh.
    pub fn indices(&self) -> (r: &[u16])
        ensures
            r@ == self.indices_view(),
            well_shaped(self.vertices_view(), self.indices_view()),
    {
        proof {
            use_type_invariant(self);
        }
        self.data.index_slice()
    }
}

/// The triangle fan over `segments` segments.
fn fan(segments: u16) -> (r: Vec<u16>)
    requires
        segments < u16::MAX,
    ensures
        r@ == fan_indices(segments as nat),
{
    let mut r: Vec<u16> = Vec::new();
    let mut t: u16 = 0;
    proof {
        assert(r@ =~= fan_indices(0));
    }
    while t < segments
        invariant
            t <= segments < u16::MAX,
            r@ == fan_indices(t as nat),
        decreases segments - t,
    {
        r.push(0);
        r.push(t + 1);
        r.push(t + 2);
        proof {
            assert(r@ =~= fan_indices(t as nat) + seq![0u16, (t + 1) as u16, (t + 2) as u16]);
        }
        t = t + 1;
    }
    r
}

impl Mesh<TwoD> {
    /// A filled circle around the origin: a center vertex and the triangle
    /// fan over `ring`, whose points go once around the rim and end where
    /// they began.
    pub fn circle_from_ring(ring: &Vec<[u32; 2]>) -> (m: Self)
        requires
            2 <= ring@.len() <= u16::MAX,
        ensures
            m.vertices_view() == circle_vertices(ring@),
            m.indices_view() == fan_indices((ring@.len() - 1) as nat),
            m.kind() == EntityType::Circle,
            well_shaped(m.vertices_view(), m.indices_view()),
    {
        let mut vertices: Vec<ModelVertex> = Vec::new();
        vertices.push(
            ModelVertex { position: [ZERO, ZERO, ZERO], tex_coords: [HALF, HALF], normal: [ZERO, ZERO, ZERO] },
        );
        let mut i: usize = 0;
        while i < ring.len()
            invariant
                i <= ring@.len(),
                vertices@ == circle_vertices(ring@.take(i as int)),
            decreases ring@.len() - i,
        {
            let p = ring[i];
            vertices.push(
                ModelVertex { position: [p[0], p[1], ZERO], tex_coords: [ZERO, ZERO], normal: [ZERO, ZERO, ZERO] },
            );
            proof {
                assert(ring@.take(i + 1) =~= ring@.take(i as int).push(p));
                assert(circle_vertices(ring@.take(i + 1)) =~= circle_vertices(ring@.take(i as int)).push(
                    flat_vertex(p[0], p[1], [ZERO, ZERO]),
                ));
            }
            i = i + 1;
        }
        proof {
            assert(ring@.take(ring@.len() as int) =~= ring@);
        }
        let indices = fan((ring.len() - 1) as u16);
        proof {
            lemma_fan_indices((ring@.len() - 1) as nat);
            assert(indices_in_bounds(indices@, vertices@.len()));
        }
        Self::from_data(VertexIndicie::new(vertices, indices, EntityType::Circle))
    }

    /// A rectangle with its top-left corner at the origin, reaching right to
    /// `right` and down to `bottom`.
    pub fn rectangle_from_corner(right: u32, bottom: u32) -> (m: Self)
        ensures
            m.vertices_view() == rectangle_vertices(right, bottom),
            m.indices_view() == rectangle_indices(),
            m.kind() == EntityType::Rectangle,
            well_shaped(m.vertices_view(), m.indices_view()),
    {
        let top_left = ModelVertex { position: [ZERO, ZERO, ZERO], tex_coords: [ZERO, ONE], normal: [ZERO, ZERO, ZERO] };
        let top_right = ModelVertex { position: [right, ZERO, ZERO], tex_coords: [ONE, ONE], normal: [ZERO, ZERO, ZERO] };
        let bottom_left = ModelVertex { position: [ZERO, bottom, ZERO], tex_coords: [ZERO, ZERO], normal: [ZERO, ZERO, ZERO] };
        let bottom_right = ModelVertex { position: [right, bottom, ZERO], tex_coords: [ONE, ZERO], normal: [ZERO, ZERO, ZERO] };
        let vertices = vec![top_left, top_right, bottom_left, bottom_right];
        let indices: Vec<u16> = vec![0, 2, 1, 2, 3, 1];
        proof {
            assert(vertices@ =~= rectangle_vertices(right, bottom));
            assert(indices@ =~= rectangle_indices());
            assert(indices_in_bounds(indices@, vertices@.len()));
        }
        Self::from_data(VertexIndicie::new(vertices, indices, EntityType::Rectangle))
    }
}

impl Mesh<ThreeD> {
    /// A box centered at the origin with half extents `w`, `h`, `l`: four
    /// vertices per face, so that each face has its own normal.
    pub fn cube_from_half_extents(w: u32, h: u32, l: u32) -> (m: Self)
        ensures
            m.vertices_view() == cube_vertices(w, h, l),
            m.indices_view() == cube_indices(),
            m.kind() == EntityType::VertIndicie,
            well_shaped(m.vertices_view(), m.indices_view()),
    {
        let nw = negate(w);
        let nh = negate(h);
        let nl = negate(l);
        let front = [ZERO, ZERO, ONE];
        let back = [ZERO, ZERO, MINUS_ONE];
        let left = [MINUS_ONE, ZERO, ZERO];
        let right = [ONE, ZERO, ZERO];
        let top = [ZERO, ONE, ZERO];
        let bottom = [ZERO, MINUS_ONE, ZERO];
        let vertices = vec![
            ModelVertex { position: [nw, nh, l], tex_coords: [ZERO, ONE], normal: front },
            ModelVertex { position: [w, nh, l], tex_coords: [ONE, ONE], normal: front },
            ModelVertex { position: [w, h, l], tex_coords: [ONE, ZERO], normal: front },
            ModelVertex { position: [nw, h, l], tex_coords: [ZERO, ZERO], normal: front },
            ModelVertex { position: [w, nh, nl], tex_coords: [ZERO, ONE], normal: back },
            ModelVertex { position: [nw, nh, nl], tex_coords: [ONE, ONE], normal: back },
            ModelVertex { position: [nw, h, nl], tex_coords: [ONE, ZERO], normal: back },
            ModelVertex { position: [w, h, nl], tex_coords: [ZERO, ZERO], normal: back },
            ModelVertex { position: [nw, nh, nl], tex_coords: [ZERO, ONE], normal: left },
            ModelVertex { position: [nw, nh, l], tex_coords: [ONE, ONE], normal: left },
            ModelVertex { position: [nw, h, l], tex_coords: [ONE, ZERO], normal: left },
            ModelVertex { position: [nw, h, nl], tex_coords: [ZERO, ZERO], normal: left },
            ModelVertex { position: [w, nh, l], tex_coords: [ZERO, ONE], normal: right },
            ModelVertex { position: [w, nh, nl], tex_coords: [ONE, ONE], normal: right },
            ModelVertex { position: [w, h, nl], tex_coords: [ONE, ZERO], normal: right },
            ModelVertex { position: [w, h, l], tex_coords: [ZERO, ZERO], normal: right },
            ModelVertex { position: [nw, h, l], tex_coords: [ZERO, ONE], normal: top },
            ModelVertex { position: [w, h, l], tex_coords: [ONE, ONE], normal: top },
            ModelVertex { position: [w, h, nl], tex_coords: [ONE, ZERO], normal: top },
            ModelVertex { position: [nw, h, nl], tex_coords: [ZERO, ZERO], normal: top },
            ModelVertex { position: [nw, nh, nl], tex_coords: [ZERO, ONE], normal: bottom },
            ModelVertex { position: [w, nh, nl], tex_coords: [ONE, ONE], normal: bottom },
            ModelVertex { position: [w, nh, l], tex_coords: [ONE, ZERO], normal: bottom },
            ModelVertex { position: [nw, nh, l], tex_coords: [ZERO, ZERO], normal: bottom },
        ];
        let indices: Vec<u16> = vec![
            0, 1, 2, 0, 2, 3,
            4, 5, 6, 4, 6, 7,
            8, 9, 10, 8, 10, 11,
            12, 13, 14, 12, 14, 15,
            16, 17, 18, 16, 18, 19,
            20, 21, 22, 20, 22, 23,
        ];
        proof {
            assert(vertices@ =~= cube_vertices(w, h, l));
            assert(indices@ =~= cube_indices());
            assert(indices_in_bounds(indices@, vertices@.len()));
        }
        Self::from_data(VertexIndicie::new(vertices, indices, EntityType::VertIndicie))
    }
}

} // verus!
