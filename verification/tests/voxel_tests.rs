use msp_rigid_body::ffi::Bool;
use msp_rigid_body::voxel::{
    build_cuboids, build_greedy_cuboids, build_surface_mesh, build_voxel_collider, choose_mode, count_solid,
    layer_rectangles, mask_rectangles, push_greedy_face_mask, reset_mask, voxel_grid_len, FaceDir, FaceMask,
    GridPoint, VoxelBox, VoxelColliderMode, VoxelColliderOptions, VoxelGrid, VoxelShape,
};

fn options(mode: VoxelColliderMode) -> VoxelColliderOptions {
    VoxelColliderOptions { mode, dynamic_body: Bool(0), small_voxel_limit: 128, mesh_voxel_limit: 20_000 }
}

fn grid(voxels: &[u8], size_x: usize, size_y: usize, size_z: usize) -> VoxelGrid<'_> {
    VoxelGrid { voxels, size_x, size_y, size_z }
}

#[test]
fn empty_voxels_build_no_collider() {
    let voxels = [0u8; 8];
    let g = grid(&voxels, 2, 2, 2);
    assert!(build_voxel_collider(&g, options(VoxelColliderMode::Auto)).is_none());
}

#[test]
fn solid_voxels_build_with_each_mode() {
    let voxels = [1u8; 8];
    let g = grid(&voxels, 2, 2, 2);
    assert!(build_voxel_collider(&g, options(VoxelColliderMode::Cuboids)).is_some());
    assert!(build_voxel_collider(&g, options(VoxelColliderMode::GreedyCuboids)).is_some());
    assert!(build_voxel_collider(&g, options(VoxelColliderMode::SurfaceMesh)).is_some());
}

#[test]
fn layer_rectangles_merge_2d_runs() {
    let voxels = [1u8, 1, 0, 1, 1, 0];
    let g = grid(&voxels, 3, 2, 1);
    let mut visited = Vec::new();
    let mut rects = Vec::new();
    layer_rectangles(&g, 0, &mut visited, &mut rects);
    assert_eq!(rects.len(), 1);
}

#[test]
fn greedy_face_mask_merges_full_rect() {
    let mut mask = vec![true; 4];
    let mut vertices = Vec::new();
    let mut indices = Vec::new();

    push_greedy_face_mask(
        &mut vertices,
        &mut indices,
        FaceMask { dir: FaceDir::ZPos, plane: 1, width: 2, height: 2 },
        &mut mask,
    )
    .unwrap();

    assert_eq!(vertices.len(), 4);
    assert_eq!(indices.len(), 2);
    assert!(mask.iter().all(|value| !*value));
}

fn p(x: usize, y: usize, z: usize) -> GridPoint {
    GridPoint { x, y, z }
}

#[test]
fn greedy_face_mask_emits_corners_and_triangles() {
    // An L shape: the first row whole, then only its left cell.
    let mut mask = vec![true, true, true, false];
    let mut vertices = vec![p(9, 9, 9); 4];
    let mut indices = Vec::new();
    push_greedy_face_mask(
        &mut vertices,
        &mut indices,
        FaceMask { dir: FaceDir::XPos, plane: 3, width: 2, height: 2 },
        &mut mask,
    )
    .unwrap();
    assert_eq!(
        &vertices[4..],
        &[p(3, 0, 0), p(3, 2, 0), p(3, 2, 1), p(3, 0, 1), p(3, 0, 1), p(3, 1, 1), p(3, 1, 2), p(3, 0, 2)]
    );
    assert_eq!(indices, vec![[4, 5, 6], [4, 6, 7], [8, 9, 10], [8, 10, 11]]);
}

#[test]
fn mask_rectangles_follow_the_greedy_rule() {
    // 3 x 3, all set but the centre of the bottom row.
    let mut mask = vec![true, true, true, true, true, true, true, false, true];
    let rects = mask_rectangles(&mut mask, 3, 3);
    let got: Vec<(usize, usize, usize, usize)> =
        rects.iter().map(|r| (r.min_x, r.min_y, r.max_x, r.max_y)).collect();
    assert_eq!(got, vec![(0, 0, 3, 2), (0, 2, 1, 3), (2, 2, 3, 3)]);
    assert!(mask.iter().all(|v| !*v));
}

#[test]
fn cuboids_are_one_per_solid_cell_in_grid_order() {
    let voxels = [1u8, 0, 0, 1];
    let g = grid(&voxels, 2, 1, 2);
    let parts = build_cuboids(&g).unwrap();
    assert_eq!(
        parts,
        vec![
            VoxelBox { min_x: 0, min_y: 0, min_z: 0, max_x: 1, max_y: 1, max_z: 1 },
            VoxelBox { min_x: 1, min_y: 0, min_z: 1, max_x: 2, max_y: 1, max_z: 2 },
        ]
    );
    assert!(build_cuboids(&grid(&[0u8; 4], 2, 1, 2)).is_none());
}

#[test]
fn greedy_cuboids_stack_equal_layer_rectangles() {
    // Layers 0 and 1 full, layer 2 only the first row.
    let voxels = [1u8, 1, 1, 1, 1, 1, 1, 1, 1, 1, 0, 0];
    let g = grid(&voxels, 2, 2, 3);
    let mut parts = build_greedy_cuboids(&g).unwrap();
    parts.sort_by_key(|b| (b.min_z, b.min_y, b.min_x));
    assert_eq!(
        parts,
        vec![
            VoxelBox { min_x: 0, min_y: 0, min_z: 0, max_x: 2, max_y: 2, max_z: 2 },
            VoxelBox { min_x: 0, min_y: 0, min_z: 2, max_x: 2, max_y: 1, max_z: 3 },
        ]
    );
    assert!(build_greedy_cuboids(&grid(&[0u8; 12], 2, 2, 3)).is_none());
}

#[test]
fn greedy_cuboids_cover_each_solid_cell_once() {
    let (sx, sy, sz) = (4usize, 3usize, 5usize);
    let voxels: Vec<u8> = (0..sx * sy * sz).map(|i| ((i * 7 + i / 5) % 3 != 0) as u8).collect();
    let g = grid(&voxels, sx, sy, sz);
    let parts = build_greedy_cuboids(&g).unwrap();
    for z in 0..sz {
        for y in 0..sy {
            for x in 0..sx {
                let hits = parts
                    .iter()
                    .filter(|b| b.min_x <= x && x < b.max_x && b.min_y <= y && y < b.max_y && b.min_z <= z && z < b.max_z)
                    .count();
                let solid = voxels[z * sy * sx + y * sx + x] != 0;
                assert_eq!(hits, solid as usize);
            }
        }
    }
    assert!(parts.windows(2).all(|w| w[0].max_z <= w[1].max_z));
}

#[test]
fn surface_mesh_of_one_cell_is_a_cube() {
    let voxels = [1u8];
    let g = grid(&voxels, 1, 1, 1);
    let (vertices, indices) = build_surface_mesh(&g).unwrap();
    assert_eq!(vertices.len(), 24);
    assert_eq!(indices.len(), 12);
    assert_eq!(&vertices[..4], &[p(0, 0, 0), p(0, 0, 1), p(0, 1, 1), p(0, 1, 0)]);
    assert_eq!(&vertices[4..8], &[p(1, 0, 0), p(1, 1, 0), p(1, 1, 1), p(1, 0, 1)]);
    assert_eq!(indices[11], [20, 22, 23]);
    assert!(build_surface_mesh(&grid(&[0u8; 8], 2, 2, 2)).is_none());
}

#[test]
fn surface_mesh_merges_flat_faces() {
    let voxels = [1u8; 8];
    let g = grid(&voxels, 2, 2, 2);
    let (vertices, indices) = build_surface_mesh(&g).unwrap();
    assert_eq!(vertices.len(), 24);
    assert_eq!(indices.len(), 12);
}

#[test]
fn choose_mode_follows_counts_and_body_type() {
    let mut o = options(VoxelColliderMode::Auto);
    assert_eq!(choose_mode(128, o), VoxelColliderMode::Cuboids);
    assert_eq!(choose_mode(129, o), VoxelColliderMode::GreedyCuboids);
    assert_eq!(choose_mode(20_000, o), VoxelColliderMode::SurfaceMesh);
    o.dynamic_body = Bool(1);
    assert_eq!(choose_mode(20_000, o), VoxelColliderMode::GreedyCuboids);
    assert_eq!(choose_mode(5, options(VoxelColliderMode::SurfaceMesh)), VoxelColliderMode::SurfaceMesh);
}

#[test]
fn build_voxel_collider_picks_the_shape_of_the_mode() {
    let voxels = [1u8; 8];
    let g = grid(&voxels, 2, 2, 2);
    match build_voxel_collider(&g, options(VoxelColliderMode::Auto)) {
        Some(VoxelShape::Cuboids(parts)) => assert_eq!(parts.len(), 8),
        _ => panic!("expected one box per cell"),
    }
    match build_voxel_collider(&g, options(VoxelColliderMode::GreedyCuboids)) {
        Some(VoxelShape::Cuboids(parts)) => assert_eq!(parts.len(), 1),
        _ => panic!("expected merged boxes"),
    }
    match build_voxel_collider(&g, options(VoxelColliderMode::SurfaceMesh)) {
        Some(VoxelShape::Mesh(v, i)) => {
            assert_eq!(v.len(), 24);
            assert_eq!(i.len(), 12);
        },
        _ => panic!("expected a mesh"),
    }
}

#[test]
fn reset_mask_clears_and_resizes() {
    let mut mask = vec![true; 7];
    {
        let s = reset_mask(&mut mask, 3);
        assert_eq!(s, &[false, false, false]);
        s[1] = true;
    }
    assert_eq!(mask, vec![false, true, false]);
}

#[test]
fn grid_len_and_solid_count() {
    assert_eq!(voxel_grid_len(2, 3, 4), Some(24));
    assert_eq!(voxel_grid_len(0, 3, 4), None);
    assert_eq!(count_solid(&[0, 3, 0, 255, 1]), 3);
}

#[test]
fn greedy_cuboids_come_out_in_emission_order() {
    // Layer 0: cells 0, 2 and 4 of a row; layer 1: only cell 2 continues.
    let voxels = [1u8, 0, 1, 0, 1, 0, 0, 1, 0, 0];
    let g = grid(&voxels, 5, 1, 2);
    let parts = build_greedy_cuboids(&g).unwrap();
    assert_eq!(
        parts,
        vec![
            VoxelBox { min_x: 0, min_y: 0, min_z: 0, max_x: 1, max_y: 1, max_z: 1 },
            VoxelBox { min_x: 4, min_y: 0, min_z: 0, max_x: 5, max_y: 1, max_z: 1 },
            VoxelBox { min_x: 2, min_y: 0, min_z: 0, max_x: 3, max_y: 1, max_z: 2 },
        ]
    );
}
