use tesseract_world::block::{Block, BlockName};
use tesseract_world::mesh::{mesh_region, quad_vertices, Plane, Quad};
use tesseract_world::world::World;

fn single_voxel_world() -> World {
    let mut w = World::new();
    w.set([10, 10, 10, 10], Block::create(BlockName::Stone));
    w
}

#[test]
fn single_voxel_has_four_quads_per_plane() {
    let w = single_voxel_world();
    let quads = mesh_region(&w, [9, 9, 9, 9], [12, 12, 12, 12]);
    assert_eq!(quads.len(), 24);
    let planes = [Plane::XY, Plane::XZ, Plane::YZ, Plane::XW, Plane::YW, Plane::ZW];
    for (n, p) in planes.iter().enumerate() {
        let of_plane: Vec<&Quad> = quads.iter().filter(|q| q.plane == *p).collect();
        assert_eq!(of_plane.len(), 4);
        // emitted plane by plane
        for q in &quads[4 * n..4 * n + 4] {
            assert_eq!(q.plane, *p);
        }
    }
    let xy: Vec<[isize; 4]> = quads[0..4].iter().map(|q| q.corner).collect();
    assert_eq!(xy, vec![[10, 10, 10, 10], [10, 10, 10, 11], [10, 10, 11, 10], [10, 10, 11, 11]]);
    let zw: Vec<[isize; 4]> = quads[20..24].iter().map(|q| q.corner).collect();
    assert_eq!(zw, vec![[10, 10, 10, 10], [10, 11, 10, 10], [11, 10, 10, 10], [11, 11, 10, 10]]);
}

#[test]
fn all_air_region_has_no_quads() {
    let w = World::new();
    assert!(mesh_region(&w, [20, 20, 20, 20], [23, 23, 23, 23]).is_empty());
}

#[test]
fn empty_region_has_no_quads() {
    let w = single_voxel_world();
    assert!(mesh_region(&w, [10, 10, 10, 10], [10, 10, 10, 10]).is_empty());
}

#[test]
fn zero_width_region_keeps_boundary_planes() {
    // with no extent along x, only planes that detect boundaries along x scan
    // anything: the boundary x = 10 itself
    let w = single_voxel_world();
    let quads = mesh_region(&w, [10, 10, 10, 10], [10, 12, 12, 12]);
    assert_eq!(quads.len(), 6);
    for q in &quads {
        assert!(q.plane == Plane::YZ || q.plane == Plane::YW || q.plane == Plane::ZW);
        assert_eq!(q.corner[0], 10);
    }
}

#[test]
fn solid_block_fully_inside_is_not_meshed_inside() {
    let mut w = World::new();
    for x in 10..12 {
        for y in 10..12 {
            for z in 10..12 {
                for v in 10..12 {
                    w.set([x, y, z, v], Block::create(BlockName::Stone));
                }
            }
        }
    }
    // a 2^4 block: per plane 2x2 positions times a 3x3 boundary grid minus the
    // one interior boundary point where all four voxels are solid
    let quads = mesh_region(&w, [9, 9, 9, 9], [13, 13, 13, 13]);
    assert_eq!(quads.len(), 6 * 4 * 8);
}

#[test]
fn meshing_twice_gives_the_same_quads() {
    let w = single_voxel_world();
    let a = mesh_region(&w, [8, 8, 8, 8], [13, 13, 13, 13]);
    let b = mesh_region(&w, [8, 8, 8, 8], [13, 13, 13, 13]);
    assert_eq!(a, b);
    assert_eq!(a.len(), 24);
}

#[test]
fn quad_vertices_follow_two_triangles() {
    let quads = vec![
        Quad { corner: [1, 2, 3, 4], plane: Plane::XY },
        Quad { corner: [-1, 0, 5, 6], plane: Plane::ZW },
    ];
    let v = quad_vertices(&quads);
    assert_eq!(v.len(), 48);
    assert_eq!(
        &v[0..24],
        &[1, 2, 3, 4, 2, 2, 3, 4, 2, 3, 3, 4, 2, 3, 3, 4, 1, 3, 3, 4, 1, 2, 3, 4]
    );
    assert_eq!(
        &v[24..48],
        &[-1, 0, 5, 6, -1, 0, 6, 6, -1, 0, 6, 7, -1, 0, 6, 7, -1, 0, 5, 7, -1, 0, 5, 6]
    );
}

#[test]
fn every_quad_borders_the_single_voxel() {
    let w = single_voxel_world();
    let v: [isize; 4] = [10, 10, 10, 10];
    for q in mesh_region(&w, [7, 8, 9, 6], [13, 12, 14, 12]) {
        let (c, d) = match q.plane {
            Plane::XY => (2, 3),
            Plane::XZ => (1, 3),
            Plane::YZ => (0, 3),
            Plane::XW => (1, 2),
            Plane::YW => (0, 2),
            Plane::ZW => (0, 1),
        };
        let mut back_c = q.corner;
        back_c[c] -= 1;
        let mut back_d = q.corner;
        back_d[d] -= 1;
        let mut back_cd = back_c;
        back_cd[d] -= 1;
        assert!(q.corner == v || back_c == v || back_d == v || back_cd == v);
    }
}
