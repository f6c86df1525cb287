use game_engine_rs::{
    model::{vertices_from_arrays, ModelVertex, HALF, ONE, ZERO},
    renderer::Renderer,
    Mesh, ThreeD, TwoD,
};

fn bits(x: f32) -> u32 {
    x.to_bits()
}

#[test]
fn circle_is_a_fan_around_its_center() {
    let ring: Vec<[u32; 2]> = (0..=4)
        .map(|i| {
            let angle = (i as f32 / 4.0) * std::f32::consts::TAU;
            [bits(2.0 * angle.cos()), bits(2.0 * angle.sin())]
        })
        .collect();
    let mesh = Mesh::<TwoD>::circle_from_ring(&ring);
    assert_eq!(mesh.vertices().len(), 6);
    assert_eq!(
        mesh.vertices()[0],
        ModelVertex { position: [ZERO; 3], tex_coords: [HALF, HALF], normal: [ZERO; 3] }
    );
    assert_eq!(mesh.vertices()[1].position, [bits(2.0), bits(0.0), ZERO]);
    assert_eq!(mesh.vertices()[1].tex_coords, [ZERO, ZERO]);
    assert_eq!(mesh.indices(), &[0, 1, 2, 0, 2, 3, 0, 3, 4, 0, 4, 5]);
    assert!(Mesh::<TwoD>::new(mesh.vertices().to_vec(), mesh.indices().to_vec()).is_ok());
}

#[test]
fn rectangle_hangs_down_from_the_origin() {
    let mesh = Mesh::<TwoD>::rectangle_from_corner(bits(3.5), bits(0.0 - 0.5));
    let positions: Vec<[u32; 3]> = mesh.vertices().iter().map(|v| v.position).collect();
    assert_eq!(
        positions,
        [
            [ZERO, ZERO, ZERO],
            [bits(3.5), ZERO, ZERO],
            [ZERO, bits(-0.5), ZERO],
            [bits(3.5), bits(-0.5), ZERO],
        ]
    );
    assert_eq!(mesh.vertices()[0].tex_coords, [ZERO, ONE]);
    assert_eq!(mesh.vertices()[3].tex_coords, [ONE, ZERO]);
    assert_eq!(mesh.indices(), &[0, 2, 1, 2, 3, 1]);
}

#[test]
fn cube_faces_have_outward_normals() {
    let mesh = Mesh::<ThreeD>::cube_from_half_extents(bits(0.75), bits(0.75), bits(0.75));
    for face in 0..6 {
        let normal = mesh.vertices()[face * 4].normal;
        for corner in 1..4 {
            assert_eq!(mesh.vertices()[face * 4 + corner].normal, normal);
        }
        let n: Vec<f32> = normal.iter().map(|&b| f32::from_bits(b)).collect();
        let p: Vec<f32> = mesh.vertices()[face * 4]
            .position
            .iter()
            .map(|&b| f32::from_bits(b))
            .collect();
        let outward: f32 = n.iter().zip(&p).map(|(a, b)| a * b).sum();
        assert_eq!(outward, 0.75);
    }
    let negative_zero = Mesh::<ThreeD>::cube_from_half_extents(bits(0.0), bits(1.0), bits(1.0));
    assert_eq!(negative_zero.vertices()[0].position[0], bits(-0.0));
    assert!(Mesh::<ThreeD>::new(mesh.vertices().to_vec(), mesh.indices().to_vec()).is_ok());
    let nan = Mesh::<ThreeD>::cube_from_half_extents(bits(f32::NAN), bits(1.0), bits(1.0));
    assert!(Mesh::<ThreeD>::new(nan.vertices().to_vec(), nan.indices().to_vec()).is_err());
}

#[test]
fn mesh_clones_share_their_data() {
    let mesh = Mesh::<TwoD>::rectangle_from_corner(bits(1.0), bits(-1.0));
    let copy = mesh.clone();
    assert_eq!(mesh.vertices().as_ptr(), copy.vertices().as_ptr());
    assert_eq!(copy.indices(), mesh.indices());
}

#[test]
fn renderer_queues_quads() {
    let mut renderer = Renderer::new(640, 480);
    renderer.push_rectangle(bits(0.25), bits(0.5), bits(1.0), bits(0.75));
    renderer.push_rectangle(bits(0.0), bits(1.0), bits(0.0), bits(-1.0));
    assert_eq!(renderer.queued_count(), 2);
}

#[test]
fn loaded_arrays_become_vertices() {
    let positions: Vec<u32> = [1.0f32, 2.0, 3.0, 4.0, 5.0, 6.0, 7.0].iter().map(|x| x.to_bits()).collect();
    let tex: Vec<u32> = [0.25f32, 0.75, 0.5, 1.0].iter().map(|x| x.to_bits()).collect();
    let normals: Vec<u32> = [0.0f32, 0.0, 1.0, 0.0, 1.0, 0.0].iter().map(|x| x.to_bits()).collect();
    let with_all = vertices_from_arrays(&positions, &tex, &normals);
    assert_eq!(with_all.len(), 2);
    assert_eq!(with_all[1].position, [bits(4.0), bits(5.0), bits(6.0)]);
    assert_eq!(with_all[1].tex_coords, [bits(0.5), bits(1.0)]);
    assert_eq!(with_all[1].normal, [ZERO, ONE, ZERO]);
    let bare = vertices_from_arrays(&positions, &[], &[]);
    assert_eq!(bare[0].tex_coords, [ZERO, ZERO]);
    assert_eq!(bare[0].normal, [ZERO, ZERO, ZERO]);
    assert!(vertices_from_arrays(&positions[..2], &[], &[]).is_empty());
}
