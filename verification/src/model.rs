//! Mesh vertices. A coordinate is an IEEE-754 single-precision number held
//! by its bit pattern, so that the library can check and arrange geometry
//! exactly; the engine converts with `f32::to_bits` and `f32::from_bits`.
use vstd::prelude::*;

verus! {

/// The bit pattern of `0.0`.
pub const ZERO: u32 = 0x0000_0000;

/// The bit pattern of `0.5`.
pub const HALF: u32 = 0x3f00_0000;

/// The bit pattern of `1.0`.
pub const ONE: u32 = 0x3f80_0000;

/// The bit pattern of `-1.0`.
pub const MINUS_ONE: u32 = 0xbf80_0000;

/// The sign bit of a single-precision number.
pub const SIGN_BIT: u32 = 0x8000_0000;

/// A vertex of a mesh: position, texture coordinates and normal.
#[derive(Clone, Copy, PartialEq, Eq, Debug)]
pub struct ModelVertex {
    pub position: [u32; 3],
    pub tex_coords: [u32; 2],
    pub normal: [u32; 3],
}

/// The number held by `bits` is finite: its exponent field is not all ones
/// (all ones encodes the infinities and NaN).
pub open spec fn is_finite_bits(bits: u32) -> bool {
    (bits >> 23u32) & 0xffu32 != 0xffu32
}

/// The bit pattern of the negation of the number held by `bits`: the same
/// pattern with the sign bit flipped, which is what `-x` computes.
pub open spec fn negated(bits: u32) -> u32 {
    bits ^ SIGN_BIT
}

/// Every coordinate of the vertex is finite.
pub open spec fn vertex_is_finite(v: ModelVertex) -> bool {
    &&& forall|k: int| 0 <= k < 3 ==> is_finite_bits(#[trigger] v.position@[k])
    &&& forall|k: int| 0 <= k < 2 ==> is_finite_bits(#[trigger] v.tex_coords@[k])
    &&& forall|k: int| 0 <= k < 3 ==> is_finite_bits(#[trigger] v.normal@[k])
}

pub fn finite_bits(bits: u32) -> (r: bool)
    ensures
        r == is_finite_bits(bits),
{
    (bits >> 23u32) & 0xffu32 != 0xffu32
}

pub fn negate(bits: u32) -> (r: u32)
    ensures
        r == negated(bits),
{
    bits ^ SIGN_BIT
}

/// A vertex is finite exactly when each of its eight coordinates is.
pub(crate) proof fn lemma_vertex_finite_parts(v: ModelVertex)
    ensures
        vertex_is_finite(v) == (is_finite_bits(v.position[0]) && is_finite_bits(v.position[1])
            && is_finite_bits(v.position[2]) && is_finite_bits(v.tex_coords[0]) && is_finite_bits(
            v.tex_coords[1],
        ) && is_finite_bits(v.normal[0]) && is_finite_bits(v.normal[1]) && is_finite_bits(
            v.normal[2],
        )),
{
    if is_finite_bits(v.position[0]) && is_finite_bits(v.position[1]) && is_finite_bits(
        v.position[2],
    ) && is_finite_bits(v.tex_coords[0]) && is_finite_bits(v.tex_coords[1]) && is_finite_bits(
        v.normal[0],
    ) && is_finite_bits(v.normal[1]) && is_finite_bits(v.normal[2]) {
        assert forall|k: int| 0 <= k < 3 implies is_finite_bits(#[trigger] v.position@[k]) by {
            assert(k == 0 || k == 1 || k == 2);
        }
        assert forall|k: int| 0 <= k < 2 implies is_finite_bits(#[trigger] v.tex_coords@[k]) by {
            assert(k == 0 || k == 1);
        }
        assert forall|k: int| 0 <= k < 3 implies is_finite_bits(#[trigger] v.normal@[k]) by {
            assert(k == 0 || k == 1 || k == 2);
        }
    } else if vertex_is_finite(v) {
        assert(is_finite_bits(v.position@[0]) && is_finite_bits(v.position@[1]) && is_finite_bits(
            v.position@[2],
        ));
        assert(is_finite_bits(v.tex_coords@[0]) && is_finite_bits(v.tex_coords@[1]));
        assert(is_finite_bits(v.normal@[0]) && is_finite_bits(v.normal@[1]) && is_finite_bits(
            v.normal@[2],
        ));
    }
}

/// Whether every coordinate of `v` is finite.
pub fn vertex_finite(v: &ModelVertex) -> (r: bool)
    ensures
        r == vertex_is_finite(*v),
{
    let p = finite_bits(v.position[0]) && finite_bits(v.position[1]) && finite_bits(v.position[2]);
    let t = finite_bits(v.tex_coords[0]) && finite_bits(v.tex_coords[1]);
    let n = finite_bits(v.normal[0]) && finite_bits(v.normal[1]) && finite_bits(v.normal[2]);
    proof {
        lemma_vertex_finite_parts(*v);
    }
    p && t && n
}

/// A vertex whose texture coordinates and normal are given and whose
/// position lies in the `z = 0` plane.
pub open spec fn flat_vertex(x: u32, y: u32, tex: [u32; 2]) -> ModelVertex {
    ModelVertex { position: [x, y, ZERO], tex_coords: tex, normal: [ZERO, ZERO, ZERO] }
}

/// Vertex `i` of flat coordinate arrays as an OBJ loader returns them:
/// three position coordinates per vertex; two texture coordinates per
/// vertex, or `(0, 0)` when there are none; three normal coordinates per
/// vertex, or the zero vector when there are none.
pub open spec fn array_vertex(positions: Seq<u32>, tex_coords: Seq<u32>, normals: Seq<u32>, i: int) -> ModelVertex {
    ModelVertex {
        position: [positions[3 * i], positions[3 * i + 1], positions[3 * i + 2]],
        tex_coords: if tex_coords.len() == 0 {
            [ZERO, ZERO]
        } else {
            [tex_coords[2 * i], tex_coords[2 * i + 1]]
        },
        normal: if normals.len() == 0 {
            [ZERO, ZERO, ZERO]
        } else {
            [normals[3 * i], normals[3 * i + 1], normals[3 * i + 2]]
        },
    }
}

/// The vertices held by flat coordinate arrays: one per whole triple of
/// position coordinates. Texture coordinates and normals, where given,
/// cover every vertex.
pub fn vertices_from_arrays(positions: &[u32], tex_coords: &[u32], normals: &[u32]) -> (r: Vec<ModelVertex>)
    requires
        tex_coords@.len() == 0 || tex_coords@.len() >= 2 * (positions@.len() / 3),
        normals@.len() == 0 || normals@.len() >= 3 * (positions@.len() / 3),
    ensures
        r@.len() == positions@.len() / 3,
        forall|i: int| 0 <= i < r@.len() ==> #[trigger] r@[i] == array_vertex(positions@, tex_coords@, normals@, i),
{
    let count = positions.len() / 3;
    let mut r: Vec<ModelVertex> = Vec::new();
    let mut i: usize = 0;
    while i < count
        invariant
            count == positions@.len() / 3,
            tex_coords@.len() == 0 || tex_coords@.len() >= 2 * count,
            normals@.len() == 0 || normals@.len() >= 3 * count,
            i <= count,
            r@.len() == i,
            forall|j: int| 0 <= j < i ==> #[trigger] r@[j] == array_vertex(positions@, tex_coords@, normals@, j),
        decreases count - i,
    {
        let total = positions.len();
        assert(3 * i + 2 < total) by (nonlinear_arith)
            requires
                i < count,
                count == total / 3,
        ;
        let base = 3 * i;
        let position = [positions[base], positions[base + 1], positions[base + 2]];
        let tex = if tex_coords.len() == 0 {
            [ZERO, ZERO]
        } else {
            [tex_coords[2 * i], tex_coords[2 * i + 1]]
        };
        let normal = if normals.len() == 0 {
            [ZERO, ZERO, ZERO]
        } else {
            [normals[3 * i], normals[3 * i + 1], normals[3 * i + 2]]
        };
        r.push(
            ModelVertex {
                position,
                tex_coords: tex,
                normal,
            },
        );
        i = i + 1;
    }
    r
}

} // verus!
