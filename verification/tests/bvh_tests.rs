use ray_marcher_bvh::bvh::{BvhCamera, BvhError, Node, Object, RayMarcherData};
use ray_marcher_bvh::geom::{mid_coord, Vec2, Vec3};

fn sphere(x: i64, y: i64, z: i64, r: i64) -> Object {
    Object { pos: Vec3 { x, y, z }, ty: 0, params: [r, 0, 0, 0, 0, 0, 0, 0, 0, 0, 0, 0] }
}

fn camera() -> BvhCamera {
    BvhCamera { pos: Vec3 { x: 0, y: 0, z: -500 }, rot: Vec2 { x: 0, y: 0 } }
}

/// 100 spheres of radius 10 on a 10x10 grid in the plane z = -700, all in
/// fixed-point hundredths.
fn grid_scene() -> Vec<Object> {
    let mut scene = Vec::new();
    let mut i: i64 = 0;
    while i < 100 {
        scene.push(sphere(10 * (i % 10), 10 * (i / 10), -700, 10));
        i += 1;
    }
    scene
}

fn empty_box_node() -> Node {
    Node::new(ray_marcher_bvh::bvh::sentinel_hi(), ray_marcher_bvh::bvh::sentinel_lo(), 0, 0)
}

#[test]
fn grid_scene_root_bounds_and_structure() {
    let data = RayMarcherData::build(grid_scene(), camera()).unwrap();
    assert_eq!(data.bvh.len(), 7);
    assert_eq!(data.scene.len(), 100);
    let root = data.bvh[0];
    assert_eq!(root.min_corner, Vec3 { x: -10, y: -10, z: -710 });
    assert_eq!(root.max_corner, Vec3 { x: 100, y: 100, z: -690 });
    assert_eq!(root.centre, Vec3 { x: 45, y: 45, z: -700 });
    assert_eq!(root.child_index, 1);
    assert_eq!(root.object_index, 0);
    assert_eq!(root.object_count, 100);
    // first split is along y (x does not strictly exceed the tied y extent)
    let a = data.bvh[1];
    let b = data.bvh[2];
    assert_eq!((a.object_index, a.object_count), (0, 50));
    assert_eq!((b.object_index, b.object_count), (50, 50));
    assert_eq!(a.child_index, 3);
    assert_eq!(b.child_index, 5);
    // four leaves of 25 at depth 2
    for (j, lo) in [(3u32, 0u32), (4, 25), (5, 50), (6, 75)] {
        let leaf = data.bvh[j as usize];
        assert_eq!(leaf.child_index, 0);
        assert_eq!(leaf.object_index, lo);
        assert_eq!(leaf.object_count, 25);
    }
    // the first leaf holds the low-x, low-y quarter exactly
    let leaf = data.bvh[3];
    assert_eq!(leaf.min_corner, Vec3 { x: -10, y: -10, z: -710 });
    assert_eq!(leaf.max_corner, Vec3 { x: 50, y: 50, z: -690 });
    for k in 0..25 {
        let o = data.scene[k];
        assert!(o.pos.x < 45 && o.pos.y < 45);
    }
}

#[test]
fn grid_scene_leaf_ranges_partition() {
    let data = RayMarcherData::build(grid_scene(), camera()).unwrap();
    let mut covered = [0u32; 100];
    for node in &data.bvh {
        if node.child_index == 0 {
            for k in node.object_index..node.object_index + node.object_count {
                covered[k as usize] += 1;
            }
        }
    }
    for c in covered {
        assert_eq!(c, 1);
    }
}

#[test]
fn grid_scene_leaves_contain_their_primitives() {
    let data = RayMarcherData::build(grid_scene(), camera()).unwrap();
    for node in &data.bvh {
        if node.child_index == 0 {
            for k in node.object_index..node.object_index + node.object_count {
                let o = data.scene[k as usize];
                let r = o.params[0];
                assert!(node.min_corner.x <= o.pos.x - r && o.pos.x + r <= node.max_corner.x);
                assert!(node.min_corner.y <= o.pos.y - r && o.pos.y + r <= node.max_corner.y);
                assert!(node.min_corner.z <= o.pos.z - r && o.pos.z + r <= node.max_corner.z);
            }
        }
    }
}

#[test]
fn grid_scene_internal_bounds_are_union_of_children() {
    let data = RayMarcherData::build(grid_scene(), camera()).unwrap();
    for node in &data.bvh {
        if node.child_index != 0 {
            let a = data.bvh[node.child_index as usize];
            let b = data.bvh[node.child_index as usize + 1];
            assert_eq!(node.min_corner.x, a.min_corner.x.min(b.min_corner.x));
            assert_eq!(node.min_corner.y, a.min_corner.y.min(b.min_corner.y));
            assert_eq!(node.min_corner.z, a.min_corner.z.min(b.min_corner.z));
            assert_eq!(node.max_corner.x, a.max_corner.x.max(b.max_corner.x));
            assert_eq!(node.max_corner.y, a.max_corner.y.max(b.max_corner.y));
            assert_eq!(node.max_corner.z, a.max_corner.z.max(b.max_corner.z));
        }
    }
}

#[test]
fn identical_builds_are_identical() {
    let d1 = RayMarcherData::build(grid_scene(), camera()).unwrap();
    let d2 = RayMarcherData::build(grid_scene(), camera()).unwrap();
    assert_eq!(d1.bvh.len(), d2.bvh.len());
    for j in 0..d1.bvh.len() {
        assert_eq!(d1.bvh[j], d2.bvh[j]);
    }
    assert_eq!(d1.scene.len(), d2.scene.len());
    for k in 0..d1.scene.len() {
        assert_eq!(d1.scene[k].pos, d2.scene[k].pos);
        assert_eq!(d1.scene[k].ty, d2.scene[k].ty);
        assert_eq!(d1.scene[k].params, d2.scene[k].params);
    }
}

#[test]
fn grow_to_include_is_idempotent_inside() {
    let mut n = Node::new(Vec3 { x: 10, y: 10, z: 10 }, Vec3 { x: 0, y: 0, z: 0 }, 0, 0);
    let before = n;
    n.grow_to_include(Vec3 { x: 3, y: 4, z: 5 });
    assert_eq!(n, before);
    assert_eq!(n.centre, Vec3 { x: 5, y: 5, z: 5 });
}

#[test]
fn grow_sphere_gives_exact_axis_aligned_bound() {
    let mut n = empty_box_node();
    n.grow_to_include_object(&sphere(10, 20, 30, 5)).unwrap();
    assert_eq!(n.min_corner, Vec3 { x: 5, y: 15, z: 25 });
    assert_eq!(n.max_corner, Vec3 { x: 15, y: 25, z: 35 });
    assert_eq!(n.centre, Vec3 { x: 10, y: 20, z: 30 });
}

#[test]
fn grow_triangle_grows_by_each_vertex() {
    let mut n = empty_box_node();
    let tri = Object {
        pos: Vec3 { x: 0, y: 0, z: 0 },
        ty: 1,
        params: [0, 0, 0, 100, 200, -50, -30, 60, 90, 0, 0, 0],
    };
    n.grow_to_include_object(&tri).unwrap();
    assert_eq!(n.min_corner, Vec3 { x: -30, y: 0, z: -50 });
    assert_eq!(n.max_corner, Vec3 { x: 100, y: 200, z: 90 });
}

#[test]
fn node_new_centre_is_floor_midpoint() {
    let n = Node::new(Vec3 { x: 3, y: -3, z: 1 }, Vec3 { x: 0, y: 0, z: 0 }, 7, 9);
    assert_eq!(n.centre, Vec3 { x: 1, y: -2, z: 0 });
    assert_eq!(n.child_index, 0);
    assert_eq!(n.object_index, 7);
    assert_eq!(n.object_count, 9);
    assert_eq!(mid_coord(0, -3), -2);
    assert_eq!(mid_coord(-3, 0), -2);
    assert_eq!(mid_coord(2, 4), 3);
}

#[test]
fn unsupported_tag_aborts_build_with_error() {
    let mut scene = grid_scene();
    scene[37].ty = 7;
    let res = RayMarcherData::build(scene, camera());
    assert!(matches!(res, Err(BvhError::UnsupportedPrimitiveType)));
}

#[test]
fn unsupported_tag_leaves_node_unchanged() {
    let mut n = Node::new(Vec3 { x: 10, y: 10, z: 10 }, Vec3 { x: 0, y: 0, z: 0 }, 0, 0);
    let before = n;
    let mut bad = sphere(1, 2, 3, 4);
    bad.ty = 2;
    let res = n.grow_to_include_object(&bad);
    assert!(matches!(res, Err(BvhError::UnsupportedPrimitiveType)));
    assert_eq!(n, before);
}

#[test]
fn one_sided_split_keeps_empty_sibling_leaves() {
    let mut scene = Vec::new();
    for _ in 0..10 {
        scene.push(sphere(0, 0, 0, 100));
    }
    let data = RayMarcherData::build(scene, camera()).unwrap();
    assert_eq!(data.bvh.len(), 7);
    let root = data.bvh[0];
    assert_eq!(root.min_corner, Vec3 { x: -100, y: -100, z: -100 });
    assert_eq!(root.max_corner, Vec3 { x: 100, y: 100, z: 100 });
    // nothing falls strictly below the split plane, so every first child is empty
    let mut counts: Vec<u32> = Vec::new();
    for node in &data.bvh {
        if node.child_index == 0 {
            counts.push(node.object_count);
        }
    }
    counts.sort();
    assert_eq!(counts, vec![0, 0, 0, 10]);
}

#[test]
fn empty_scene_builds_empty_tree() {
    let data = RayMarcherData::build(Vec::new(), camera()).unwrap();
    assert_eq!(data.bvh.len(), 7);
    assert_eq!(data.bvh[0].object_count, 0);
    for node in &data.bvh {
        if node.child_index == 0 {
            assert_eq!(node.object_count, 0);
        }
    }
}

#[test]
fn camera_is_passed_through() {
    let data = RayMarcherData::build(grid_scene(), camera()).unwrap();
    assert_eq!(data.camera, camera());
}
