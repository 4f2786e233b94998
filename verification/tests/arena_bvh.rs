//! Tests for the scene arena, the BVH construction and the traversal.

use pathtracer::Instance;
use pathtracer::InstanceId;
use pathtracer::MaterialInstance;
use pathtracer::TextureInstance;
use pathtracer::World;
use pathtracer::WorldBuilder;
use pathtracer::hit_scene;

/// A plain axis-aligned box payload for tests.
#[derive(Clone, Copy, Debug, PartialEq)]
struct Box3 {
    min: [f32; 3],
    max: [f32; 3],
}

/// A plain sphere payload for tests.
#[derive(Clone, Copy, Debug, PartialEq)]
struct SphereData {
    center: [f32; 3],
    radius: f32,
}

type TestWorldBuilder = WorldBuilder<Box3, SphereData, SphereData, f32, f32, [f32; 3], f32>;
type TestWorld = World<Box3, SphereData, SphereData, f32, f32, [f32; 3], f32>;

fn sphere_box(s: &SphereData) -> Box3 {
    Box3 {
        min: [s.center[0] - s.radius, s.center[1] - s.radius, s.center[2] - s.radius],
        max: [s.center[0] + s.radius, s.center[1] + s.radius, s.center[2] + s.radius],
    }
}

fn union_box(a: &Box3, b: &Box3) -> Box3 {
    Box3 {
        min: [
            a.min[0].min(b.min[0]),
            a.min[1].min(b.min[1]),
            a.min[2].min(b.min[2]),
        ],
        max: [
            a.max[0].max(b.max[0]),
            a.max[1].max(b.max[1]),
            a.max[2].max(b.max[2]),
        ],
    }
}

fn less_box(axis: usize, a: &Box3, b: &Box3) -> bool {
    a.min[axis % 3] < b.min[axis % 3]
}

/// Builds a world holding `n` unit spheres strung out along the x axis,
/// returning the world and the ids of the spheres.
fn sphere_row(n: usize) -> (TestWorld, Vec<usize>) {
    let mut builder: TestWorldBuilder = WorldBuilder::create();
    let tex = builder.create_texture(TextureInstance::ConstantTexture([0.5, 0.5, 0.5]));
    let mat = builder.create_material(MaterialInstance::Lambertian(tex));
    let mut ids: Vec<usize> = Vec::new();
    for i in 0..n {
        let s = SphereData { center: [3.0 * i as f32, 0.0, 0.0], radius: 1.0 };
        let id = builder.create_instance(Instance::Sphere(s, mat));
        ids.push(id.index());
    }
    let boxes = leaf_boxes(builder.instances());
    let world = builder.build(&boxes, 0, less_box, union_box);
    (world, ids)
}

/// Derives one conservative bounding box per existing instance, exactly as
/// the renderer does before sealing the scene.
fn leaf_boxes(instances: &Vec<Instance<Box3, SphereData, SphereData>>) -> Vec<Box3> {
    let empty = Box3 { min: [0.0; 3], max: [0.0; 3] };
    let mut boxes: Vec<Box3> = Vec::with_capacity(instances.len());
    for index in 0..instances.len() {
        let b = instance_box(instances, index, &empty);
        boxes.push(b);
    }
    boxes
}

fn instance_box(
    instances: &Vec<Instance<Box3, SphereData, SphereData>>,
    index: usize,
    empty: &Box3,
) -> Box3 {
    match &instances[index] {
        Instance::Empty => *empty,
        Instance::Sphere(s, _) => sphere_box(s),
        Instance::MovingSphere(s, _) => sphere_box(s),
        Instance::FlipNormals(inner) => instance_box(instances, inner.index(), empty),
        Instance::BvhNode(b, _, _) => *b,
    }
}

/// Walks the built hierarchy and collects the ids of its leaves.
fn collect_leaves(
    instances: &Vec<Instance<Box3, SphereData, SphereData>>,
    root: usize,
    out: &mut Vec<usize>,
) {
    match &instances[root] {
        Instance::Empty => {}
        Instance::BvhNode(_, left, right) => {
            collect_leaves(instances, left.index(), out);
            collect_leaves(instances, right.index(), out);
        }
        _ => out.push(root),
    }
}

#[test]
fn builder_hands_out_sequential_ids() {
    let mut builder: TestWorldBuilder = WorldBuilder::create();
    let t0 = builder.create_texture(TextureInstance::ConstantTexture([1.0, 0.0, 0.0]));
    let t1 = builder.create_texture(TextureInstance::CheckerTexture(t0, t0));
    assert_eq!(t0.index(), 0);
    assert_eq!(t1.index(), 1);
    let m0 = builder.create_material(MaterialInstance::Lambertian(t1));
    let m1 = builder.create_material(MaterialInstance::Metal(0.3f32));
    assert_eq!(m0.index(), 0);
    assert_eq!(m1.index(), 1);
    let s = SphereData { center: [0.0; 3], radius: 1.0 };
    let i1 = builder.create_instance(Instance::Sphere(s, m0));
    let i2 = builder.create_instance(Instance::FlipNormals(i1));
    // id 0 is the reserved sentinel, so user instances start at 1
    assert_eq!(i1.index(), 1);
    assert_eq!(i2.index(), 2);
    assert_eq!(builder.instances().len(), 3);
}

#[test]
fn build_of_empty_scene_roots_at_sentinel() {
    let builder: TestWorldBuilder = WorldBuilder::create();
    let boxes = leaf_boxes(builder.instances());
    let world = builder.build(&boxes, 0, less_box, union_box);
    assert_eq!(world.bvh_root().index(), 0);
    assert!(matches!(world.instances()[0], Instance::Empty));
    let mut leaves: Vec<usize> = Vec::new();
    collect_leaves(world.instances(), world.bvh_root().index(), &mut leaves);
    assert!(leaves.is_empty());
}

#[test]
fn build_of_single_instance_uses_it_directly() {
    let (world, ids) = sphere_row(1);
    // one leaf needs no wrapper node: the arena did not grow
    assert_eq!(world.instances().len(), 2);
    assert_eq!(world.bvh_root().index(), ids[0]);
}

#[test]
fn build_of_two_instances_makes_one_node() {
    let (world, ids) = sphere_row(2);
    assert_eq!(world.instances().len(), 4);
    let root = world.bvh_root().index();
    assert_eq!(root, 3);
    match &world.instances()[root] {
        Instance::BvhNode(_, left, right) => {
            let mut pair = vec![left.index(), right.index()];
            pair.sort();
            assert_eq!(pair, ids);
        }
        _ => panic!("root is not a node"),
    }
}

#[test]
fn bvh_leaves_are_exactly_the_instances() {
    for n in [0usize, 1, 2, 3, 5, 8, 16, 33] {
        let (world, ids) = sphere_row(n);
        let mut leaves: Vec<usize> = Vec::new();
        collect_leaves(world.instances(), world.bvh_root().index(), &mut leaves);
        leaves.sort();
        assert_eq!(leaves, ids, "leaf set differs for {} spheres", n);
    }
}

/// Walks the built hierarchy and reports the number of interior nodes on
/// the longest root-to-leaf path.
fn measure_height(
    instances: &Vec<Instance<Box3, SphereData, SphereData>>,
    root: usize,
) -> usize {
    match &instances[root] {
        Instance::BvhNode(_, left, right) => {
            1 + measure_height(instances, left.index()).max(measure_height(
                instances,
                right.index(),
            ))
        }
        _ => 0,
    }
}

#[test]
fn bvh_height_stays_logarithmic() {
    for (n, bound) in [(2usize, 1usize), (4, 2), (8, 3), (16, 4), (33, 6), (100, 7)] {
        let (world, _) = sphere_row(n);
        let height = measure_height(world.instances(), world.bvh_root().index());
        assert!(height <= bound, "height {} over {} leaves exceeds {}", height, n, bound);
    }
}

#[test]
fn bvh_nodes_only_point_backwards() {
    let (world, _) = sphere_row(16);
    let instances = world.instances();
    for index in 0..instances.len() {
        match &instances[index] {
            Instance::BvhNode(_, left, right) => {
                assert!(left.index() < index);
                assert!(right.index() < index);
            }
            Instance::FlipNormals(inner) => assert!(inner.index() < index),
            _ => {}
        }
    }
}

#[test]
fn bvh_splits_sorted_halves_at_the_median() {
    // eight spheres created in decreasing x order; sorting by box minimum
    // along x must put the four lowest-x spheres under the left child and
    // the four highest under the right, whatever order they were created in
    let mut builder: TestWorldBuilder = WorldBuilder::create();
    let tex = builder.create_texture(TextureInstance::ConstantTexture([0.5, 0.5, 0.5]));
    let mat = builder.create_material(MaterialInstance::Lambertian(tex));
    let mut by_x: Vec<usize> = Vec::new();
    for i in (0..8).rev() {
        let s = SphereData { center: [10.0 * i as f32, 0.0, 0.0], radius: 1.0 };
        by_x.push(builder.create_instance(Instance::Sphere(s, mat)).index());
    }
    by_x.reverse();
    let boxes = leaf_boxes(builder.instances());
    // start on the x axis so the top split orders by x
    let world = builder.build(&boxes, 0, less_box, union_box);
    match &world.instances()[world.bvh_root().index()] {
        Instance::BvhNode(_, left, right) => {
            let mut left_leaves: Vec<usize> = Vec::new();
            collect_leaves(world.instances(), left.index(), &mut left_leaves);
            left_leaves.sort();
            let mut right_leaves: Vec<usize> = Vec::new();
            collect_leaves(world.instances(), right.index(), &mut right_leaves);
            right_leaves.sort();
            let mut low_half = by_x[0..4].to_vec();
            low_half.sort();
            let mut high_half = by_x[4..8].to_vec();
            high_half.sort();
            assert_eq!(left_leaves, low_half);
            assert_eq!(right_leaves, high_half);
        }
        _ => panic!("root is not a node"),
    }
}

#[test]
fn bvh_leaves_survive_a_useless_comparator() {
    // ties everywhere: the comparator answers false for every pair; the
    // relative order is unspecified but the leaf set must still be exact
    let mut builder: TestWorldBuilder = WorldBuilder::create();
    let tex = builder.create_texture(TextureInstance::ConstantTexture([0.1, 0.2, 0.3]));
    let mat = builder.create_material(MaterialInstance::Isotropic(tex));
    let mut ids: Vec<usize> = Vec::new();
    for i in 0..7 {
        let s = SphereData { center: [i as f32, 0.0, 0.0], radius: 0.5 };
        ids.push(builder.create_instance(Instance::Sphere(s, mat)).index());
    }
    let boxes = leaf_boxes(builder.instances());
    let world = builder.build(&boxes, 2, |_a: usize, _x: &Box3, _y: &Box3| false, union_box);
    let mut leaves: Vec<usize> = Vec::new();
    collect_leaves(world.instances(), world.bvh_root().index(), &mut leaves);
    leaves.sort();
    assert_eq!(leaves, ids);
}

#[test]
fn node_boxes_union_their_children() {
    let (world, _) = sphere_row(9);
    let instances = world.instances();
    let empty = Box3 { min: [0.0; 3], max: [0.0; 3] };
    for index in 0..instances.len() {
        if let Instance::BvhNode(b, left, right) = &instances[index] {
            let lb = instance_box(instances, left.index(), &empty);
            let rb = instance_box(instances, right.index(), &empty);
            assert_eq!(*b, union_box(&lb, &rb));
        }
    }
}

/// The traversal over a row of spheres, with per-leaf hit tests faked as
/// the distance of each sphere's center from the origin: the nearest hit
/// must win, exactly as a linear scan over the leaves would answer.
#[test]
fn traversal_returns_nearest_leaf_hit() {
    let (world, _ids) = sphere_row(12);
    let instances = world.instances();
    let leaf_hit = |id: usize| -> Option<f32> {
        match &instances[id] {
            Instance::Sphere(s, _) => Some(s.center[0]),
            Instance::MovingSphere(s, _) => Some(s.center[0]),
            _ => None,
        }
    };
    let box_hit = |_id: usize| true;
    let closer = |a: &f32, b: &f32| *a < *b;
    let flip = |h: f32| -h;
    let got = hit_scene(instances, world.bvh_root().index(), leaf_hit, box_hit, closer, flip);
    // the nearest sphere sits at x == 0
    assert_eq!(got, Some(0.0));
}

#[test]
fn traversal_prunes_rejected_boxes() {
    let (world, _) = sphere_row(6);
    let instances = world.instances();
    let leaf_hit = |id: usize| -> Option<f32> {
        match &instances[id] {
            Instance::Sphere(s, _) => Some(s.center[0]),
            _ => None,
        }
    };
    // every interior box is rejected: nothing may be reported
    let box_hit = |_id: usize| false;
    let closer = |a: &f32, b: &f32| *a < *b;
    let flip = |h: f32| -h;
    let got = hit_scene(instances, world.bvh_root().index(), leaf_hit, box_hit, closer, flip);
    assert_eq!(got, None);
}

#[test]
fn traversal_flips_through_flip_normals() {
    let mut builder: TestWorldBuilder = WorldBuilder::create();
    let tex = builder.create_texture(TextureInstance::ConstantTexture([0.0, 0.0, 0.0]));
    let mat = builder.create_material(MaterialInstance::DiffuseLight(tex));
    let s = SphereData { center: [4.0, 0.0, 0.0], radius: 1.0 };
    let inner = builder.create_instance(Instance::Sphere(s, mat));
    builder.create_instance(Instance::FlipNormals(inner));
    let boxes = leaf_boxes(builder.instances());
    let world = builder.build(&boxes, 0, less_box, union_box);
    let instances = world.instances();
    let leaf_hit = |id: usize| -> Option<f32> {
        match &instances[id] {
            Instance::Sphere(s, _) => Some(s.center[0]),
            _ => None,
        }
    };
    let box_hit = |_id: usize| true;
    let closer = |a: &f32, b: &f32| *a < *b;
    let flip = |h: f32| -h;
    // the flipped wrapper and the bare sphere are both leaves; the flipped
    // record is -4.0 and wins the nearest comparison against 4.0
    let got = hit_scene(instances, world.bvh_root().index(), leaf_hit, box_hit, closer, flip);
    assert_eq!(got, Some(-4.0));
}

#[test]
fn nested_flip_wrappers_flip_once_each() {
    // a sphere under two flip wrappers: the record crosses `flip` twice,
    // restoring the original sign
    let mut builder: TestWorldBuilder = WorldBuilder::create();
    let tex = builder.create_texture(TextureInstance::ConstantTexture([0.0, 0.0, 0.0]));
    let mat = builder.create_material(MaterialInstance::Lambertian(tex));
    let s = SphereData { center: [6.0, 0.0, 0.0], radius: 1.0 };
    let sphere = builder.create_instance(Instance::Sphere(s, mat));
    let once = builder.create_instance(Instance::FlipNormals(sphere));
    let twice = builder.create_instance(Instance::FlipNormals(once));
    let instances_now = builder.instances().len();
    assert_eq!(twice.index(), instances_now - 1);
    let boxes = leaf_boxes(builder.instances());
    let world = builder.build(&boxes, 0, less_box, union_box);
    let instances = world.instances();
    let leaf_hit = |id: usize| -> Option<f32> {
        match &instances[id] {
            Instance::Sphere(s, _) => Some(s.center[0]),
            _ => None,
        }
    };
    let box_hit = |_id: usize| true;
    let closer = |a: &f32, b: &f32| *a < *b;
    let flip = |h: f32| -h;
    // query the double wrapper's subtree alone: -(-6.0) == 6.0
    let got = hit_scene(instances, twice.index(), leaf_hit, box_hit, closer, flip);
    assert_eq!(got, Some(6.0));
    // the single wrapper's subtree flips exactly once
    let got = hit_scene(instances, once.index(), leaf_hit, box_hit, closer, flip);
    assert_eq!(got, Some(-6.0));
}

#[test]
fn empty_instance_reports_no_hit() {
    let (world, _) = sphere_row(3);
    let instances = world.instances();
    let leaf_hit = |_id: usize| -> Option<f32> { Some(1.0) };
    let box_hit = |_id: usize| true;
    let closer = |a: &f32, b: &f32| *a < *b;
    let flip = |h: f32| -h;
    let got = hit_scene(instances, 0, leaf_hit, box_hit, closer, flip);
    assert_eq!(got, None);
}

#[test]
fn world_keeps_materials_and_textures() {
    let mut builder: TestWorldBuilder = WorldBuilder::create();
    let tex = builder.create_texture(TextureInstance::ConstantTexture([0.9, 0.8, 0.7]));
    let mat = builder.create_material(MaterialInstance::Dielectric(1.5f32));
    let s = SphereData { center: [0.0; 3], radius: 2.0 };
    builder.create_instance(Instance::Sphere(s, mat));
    let boxes = leaf_boxes(builder.instances());
    let world = builder.build(&boxes, 1, less_box, union_box);
    assert_eq!(world.materials().len(), 1);
    assert_eq!(world.textures().len(), 1);
    match &world.materials()[mat.index()] {
        MaterialInstance::Dielectric(ri) => assert_eq!(*ri, 1.5),
        _ => panic!("wrong material"),
    }
    match &world.textures()[tex.index()] {
        TextureInstance::ConstantTexture(c) => assert_eq!(*c, [0.9, 0.8, 0.7]),
        _ => panic!("wrong texture"),
    }
}

#[test]
fn instance_ids_compare_by_value() {
    let mut builder: TestWorldBuilder = WorldBuilder::create();
    let tex = builder.create_texture(TextureInstance::ConstantTexture([0.0; 3]));
    let mat = builder.create_material(MaterialInstance::Lambertian(tex));
    let s = SphereData { center: [0.0; 3], radius: 1.0 };
    let a: InstanceId = builder.create_instance(Instance::Sphere(s, mat));
    let b: InstanceId = builder.create_instance(Instance::Sphere(s, mat));
    assert_eq!(a, a);
    assert_ne!(a, b);
}
