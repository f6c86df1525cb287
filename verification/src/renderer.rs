//! CPU-side vertex data that the engine uploads to the GPU.
use vstd::prelude::*;
use crate::model::{flat_vertex, ModelVertex, ZERO};

verus! {

/// What a piece of uploaded geometry was made from.
#[derive(PartialEq, Eq, Structural, Clone, Copy, Debug)]
pub enum EntityType {
    Rectangle,
    Circle,
    VertIndicie,
    Model,
}

/// Vertices with the triangle list that indexes them, and what they were
/// made from.
pub struct VertexIndicie {
    pub(crate) vertexes: Vec<ModelVertex>,
    pub(crate) indicies: Vec<u16>,
    pub(crate) entity_type: EntityType,
}

impl VertexIndicie {
    pub closed spec fn vertices_view(&self) -> Seq<ModelVertex> {
        self.vertexes@
    }

    pub closed spec fn indices_view(&self) -> Seq<u16> {
        self.indicies@
    }

    pub closed spec fn kind(&self) -> EntityType {
        self.entity_type
    }

    pub(crate) fn new(vertexes: Vec<ModelVertex>, indicies: Vec<u16>, entity_type: EntityType) -> (d: Self)
        ensures
            d.vertices_view() == vertexes@,
            d.indices_view() == indicies@,
            d.kind() == entity_type,
    {
        VertexIndicie { vertexes, indicies, entity_type }
    }

    pub(crate) fn vertex_slice(&self) -> (r: &[ModelVertex])
        ensures
            r@ == self.vertices_view(),
    {
        self.vertexes.as_slice()
    }

    pub(crate) fn index_slice(&self) -> (r: &[u16])
        ensures
            r@ == self.indices_view(),
    {
        self.indicies.as_slice()
    }
}

/// The corners of an axis-aligned quad in the `z = 0` plane, top-left,
/// top-right, bottom-left, bottom-right, without texture coordinates.
pub open spec fn quad_vertices(left: u32, right: u32, top: u32, bottom: u32) -> Seq<ModelVertex> {
    seq![
        flat_vertex(left, top, [ZERO, ZERO]),
        flat_vertex(right, top, [ZERO, ZERO]),
        flat_vertex(left, bottom, [ZERO, ZERO]),
        flat_vertex(right, bottom, [ZERO, ZERO]),
    ]
}

pub open spec fn quad_indices() -> Seq<u16> {
    seq![0u16, 1, 2, 2, 3, 1]
}

/// The corners a triangle `t` of a quad's index list names.
pub open spec fn quad_triangle(is: Seq<u16>, t: int) -> Set<u16> {
    set![is[3 * t], is[3 * t + 1], is[3 * t + 2]]
}

/// A queued quad is two triangles that tile it: top-left, top-right and
/// bottom-left, then bottom-left, bottom-right and top-right. They share the
/// top-right / bottom-left diagonal and between them use all four corners,
/// which sit at the quad's edges.
pub proof fn law_quad_tiled(left: u32, right: u32, top: u32, bottom: u32)
    ensures
        quad_indices().len() == 6,
        quad_vertices(left, right, top, bottom)[0].position == [left, top, ZERO],
        quad_vertices(left, right, top, bottom)[1].position == [right, top, ZERO],
        quad_vertices(left, right, top, bottom)[2].position == [left, bottom, ZERO],
        quad_vertices(left, right, top, bottom)[3].position == [right, bottom, ZERO],
        quad_triangle(quad_indices(), 0) == set![0u16, 1u16, 2u16],
        quad_triangle(quad_indices(), 1) == set![1u16, 2u16, 3u16],
{
    assert(quad_triangle(quad_indices(), 0) =~= set![0u16, 1u16, 2u16]);
    assert(quad_triangle(quad_indices(), 1) =~= set![1u16, 2u16, 3u16]);
}

/// Geometry queued for upload, with the size of the screen it is drawn on.
pub struct Renderer {
    pub(crate) entity_vertex_data: Vec<VertexIndicie>,
    pub(crate) screen_width: u32,
    pub(crate) screen_height: u32,
}

impl Renderer {
    /// The queued geometry, oldest first, each as vertices, indices and
    /// what it was made from.
    pub closed spec fn queued(&self) -> Seq<(Seq<ModelVertex>, Seq<u16>, EntityType)> {
        self.entity_vertex_data@.map_values(
            |d: VertexIndicie| (d.vertices_view(), d.indices_view(), d.kind()),
        )
    }

    pub closed spec fn screen(&self) -> (u32, u32) {
        (self.screen_width, self.screen_height)
    }

    pub fn new(screen_width: u32, screen_height: u32) -> (r: Self)
        ensures
            r.queued() == Seq::<(Seq<ModelVertex>, Seq<u16>, EntityType)>::empty(),
            r.screen() == (screen_width, screen_height),
    {
        let r = Renderer { entity_vertex_data: Vec::new(), screen_width, screen_height };
        proof {
            assert(r.queued() =~= Seq::<(Seq<ModelVertex>, Seq<u16>, EntityType)>::empty());
        }
        r
    }

    /// How many pieces of geometry are queued.
    pub fn queued_count(&self) -> (n: usize)
        ensures
            n == self.queued().len(),
    {
        self.entity_vertex_data.len()
    }

    /// Queues a rectangle: a quad whose edges are at `left`, `right`, `top` and `bottom`.
    pub fn push_rectangle(&mut self, left: u32, right: u32, top: u32, bottom: u32)
        ensures
            final(self).queued() == old(self).queued().push(
                (quad_vertices(left, right, top, bottom), quad_indices(), EntityType::Rectangle),
            ),
            final(self).screen() == old(self).screen(),
    {
        let top_left = ModelVertex { position: [left, top, ZERO], tex_coords: [ZERO, ZERO], normal: [ZERO, ZERO, ZERO] };
        let top_right = ModelVertex { position: [right, top, ZERO], tex_coords: [ZERO, ZERO], normal: [ZERO, ZERO, ZERO] };
        let bottom_left = ModelVertex { position: [left, bottom, ZERO], tex_coords: [ZERO, ZERO], normal: [ZERO, ZERO, ZERO] };
        let bottom_right = ModelVertex { position: [right, bottom, ZERO], tex_coords: [ZERO, ZERO], normal: [ZERO, ZERO, ZERO] };
        let vertexes = vec![top_left, top_right, bottom_left, bottom_right];
        let indicies: Vec<u16> = vec![0, 1, 2, 2, 3, 1];
        let data = VertexIndicie::new(vertexes, indicies, EntityType::Rectangle);
        proof {
            assert(data.vertices_view() =~= quad_vertices(left, right, top, bottom));
            assert(data.indices_view() =~= quad_indices());
        }
        self.entity_vertex_data.push(data);
        proof {
            assert(self.queued() =~= old(self).queued().push(
                (quad_vertices(left, right, top, bottom), quad_indices(), EntityType::Rectangle),
            ));
        }
    }
}

} // verus!
