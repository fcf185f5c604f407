use lib::math::{Mat4, mat_identity, mat_mul_checked};
use lib::transform::Transform;
use lib::world::{World, Parent};
use lib::systems::{TreeNode, TransformSystem};

// Rotation by half a turn about the y axis, as a row-major 3x3 integer matrix.
const HALF_TURN_Y: [i64; 9] = [-1, 0, 0, 0, 1, 0, 0, 0, -1];
// Quarter turn about the z axis.
const QUARTER_TURN_Z: [i64; 9] = [0, -1, 0, 1, 0, 0, 0, 0, 1];

fn translated(x: i64, y: i64, z: i64) -> Transform {
    let mut t = Transform::default();
    t.set_translation_xyz(x, y, z);
    t
}

fn compose(a: &Mat4, b: &Mat4) -> Mat4 {
    mat_mul_checked(a, b).unwrap()
}

#[test]
fn transform_matrix() {
    let mut t = Transform::default();
    t.set_translation_xyz(5, 2, -1);
    t.set_rotation(QUARTER_TURN_Z);
    t.set_scale(2, 2, 2);
    let m = t.matrix().unwrap();
    // translation in the last column
    assert_eq!(m.m03, 5);
    assert_eq!(m.m13, 2);
    assert_eq!(m.m23, -1);
    // rotation times scale in the upper-left block
    assert_eq!(m.m00, 0);
    assert_eq!(m.m01, -2);
    assert_eq!(m.m10, 2);
    assert_eq!(m.m11, 0);
    assert_eq!(m.m22, 2);
    assert_eq!(m.m33, 1);
}

#[test]
fn zeroed() {
    // A default transform with no parent gets the identity world matrix.
    let mut world = World::new();
    let system = TransformSystem::new();
    let e1 = world.insert(Transform::default());
    system.run_now(&mut world).unwrap();
    assert_eq!(*world.get_transform(e1).global_matrix(), mat_identity());
}

#[test]
fn basic() {
    // No parents: the world matrix is exactly the local matrix.
    let mut world = World::new();
    let system = TransformSystem::new();
    let mut local = translated(5, 5, 5);
    local.set_rotation(HALF_TURN_Y);
    let e1 = world.insert(local);
    system.run_now(&mut world).unwrap();
    assert_eq!(*world.get_transform(e1).global_matrix(), local.matrix().unwrap());
}

#[test]
fn parent_before() {
    // A chain: each world matrix is the parent's times the own local matrix.
    let mut world = World::new();
    let system = TransformSystem::new();
    let mut local1 = translated(5, 5, 5);
    local1.set_rotation(QUARTER_TURN_Z);
    let local2 = translated(1, 2, 3);
    let local3 = translated(-4, 0, 4);
    let e1 = world.insert(local1);
    let e2 = world.insert(local2);
    let e3 = world.insert(local3);
    world.add_tag(e2, Parent(e1));
    world.add_tag(e3, Parent(e2));
    system.run_now(&mut world).unwrap();

    let g1 = *world.get_transform(e1).global_matrix();
    assert_eq!(g1, local1.matrix().unwrap());
    let g2 = *world.get_transform(e2).global_matrix();
    assert_eq!(g2, compose(&g1, &local2.matrix().unwrap()));
    let g3 = *world.get_transform(e3).global_matrix();
    assert_eq!(g3, compose(&g2, &local3.matrix().unwrap()));
}

#[test]
fn reparenting() {
    let mut world = World::new();
    let system = TransformSystem::new();
    let forward_one = translated(1, 0, 0);
    let mut rotate = Transform::default();
    rotate.set_rotation(HALF_TURN_Y);

    let fwd1 = world.insert(forward_one);
    let fwd2 = world.insert(forward_one);
    let rot = world.insert(rotate);
    let fwd_m = forward_one.matrix().unwrap();
    let rot_m = rotate.matrix().unwrap();

    // No parents: every world matrix is the local matrix.
    system.run_now(&mut world).unwrap();
    assert_eq!(*world.get_transform(fwd1).global_matrix(), fwd_m);
    assert_eq!(*world.get_transform(fwd2).global_matrix(), fwd_m);
    assert_eq!(*world.get_transform(rot).global_matrix(), rot_m);

    // Two trees: rot alone, and fwd1 -> fwd2. A forest root is recomputed
    // as though parentless, so the unchanged ancestor must itself be dirtied
    // (rewritten) for its composition to reach the reparented child.
    world.add_tag(fwd2, Parent(fwd1));
    world.set_transform(fwd1, forward_one);
    system.run_now(&mut world).unwrap();
    assert_eq!(*world.get_transform(fwd1).global_matrix(), fwd_m);
    assert_eq!(*world.get_transform(fwd2).global_matrix(), compose(&fwd_m, &fwd_m));
    assert_eq!(world.get_transform(fwd2).global_matrix().m03, 2);
    assert_eq!(*world.get_transform(rot).global_matrix(), rot_m);

    // One tree: fwd1 -> rot -> fwd2.
    world.add_tag(fwd2, Parent(rot));
    world.add_tag(rot, Parent(fwd1));
    world.set_transform(fwd1, forward_one);
    system.run_now(&mut world).unwrap();
    assert_eq!(*world.get_transform(fwd1).global_matrix(), fwd_m);
    let rot_g = compose(&fwd_m, &rot_m);
    assert_eq!(*world.get_transform(rot).global_matrix(), rot_g);
    let fwd2_g = compose(&rot_g, &fwd_m);
    assert_eq!(*world.get_transform(fwd2).global_matrix(), fwd2_g);
    // forward then half-turn then forward lands back at the origin
    assert_eq!(fwd2_g.m03, 0);

    // Back to two trees: fwd1 alone, and rot -> fwd2.
    world.remove_tag(fwd1);
    world.remove_tag(rot);
    world.add_tag(fwd2, Parent(rot));
    system.run_now(&mut world).unwrap();
    assert_eq!(*world.get_transform(fwd1).global_matrix(), fwd_m);
    assert_eq!(*world.get_transform(rot).global_matrix(), rot_m);
    let fwd2_g = compose(&rot_m, &fwd_m);
    assert_eq!(*world.get_transform(fwd2).global_matrix(), fwd2_g);
    // the half turn sends the forward step backwards
    assert_eq!(fwd2_g.m03, -1);
}

#[test]
fn idempotent_tick() {
    // A second tick with no intervening mutation changes no world matrix.
    let mut world = World::new();
    let system = TransformSystem::new();
    let a = world.insert(translated(3, 0, 0));
    let b = world.insert(translated(0, 7, 0));
    world.add_tag(b, Parent(a));
    system.run_now(&mut world).unwrap();
    let ga = *world.get_transform(a).global_matrix();
    let gb = *world.get_transform(b).global_matrix();
    system.run_now(&mut world).unwrap();
    assert_eq!(*world.get_transform(a).global_matrix(), ga);
    assert_eq!(*world.get_transform(b).global_matrix(), gb);
}

#[test]
fn unrelated_roots_independent() {
    // Mutating one parentless entity leaves the other's matrix alone.
    let mut world = World::new();
    let system = TransformSystem::new();
    let a = world.insert(translated(1, 0, 0));
    let b = world.insert(translated(0, 1, 0));
    system.run_now(&mut world).unwrap();
    let gb = *world.get_transform(b).global_matrix();
    world.set_transform(a, translated(9, 9, 9));
    system.run_now(&mut world).unwrap();
    assert_eq!(world.get_transform(a).global_matrix().m03, 9);
    assert_eq!(*world.get_transform(b).global_matrix(), gb);
}

#[test]
fn forest_partition() {
    // A freshly created chain lands in one tree, each entity exactly once.
    let mut world = World::new();
    let a = world.insert(translated(1, 0, 0));
    let b = world.insert(translated(2, 0, 0));
    let c = world.insert(translated(3, 0, 0));
    world.add_tag(b, Parent(a));
    world.add_tag(c, Parent(b));
    let forest = TransformSystem::build_forest(&world);
    assert_eq!(forest.roots.len(), 1);
    assert_eq!(forest.nodes.len(), 3);
    let mut entities: Vec<usize> = forest.nodes.iter().map(|n| n.entity).collect();
    entities.sort();
    assert_eq!(entities, vec![a, b, c]);
}

#[test]
fn repeated_candidate_single_tree() {
    // Both scans report a freshly inserted entity; it still gets one node.
    let mut world = World::new();
    let system = TransformSystem::new();
    let a = world.insert(translated(4, 0, 0));
    let forest = TransformSystem::build_forest(&world);
    assert_eq!(forest.nodes.len(), 1);
    assert_eq!(forest.roots.len(), 1);
    assert_eq!(forest.nodes[forest.roots[0]].entity, a);
    system.run_now(&mut world).unwrap();
    assert_eq!(world.get_transform(a).global_matrix().m03, 4);
}

#[test]
fn tree_node_new() {
    let n = TreeNode::new(7);
    assert_eq!(n.entity, 7);
    assert!(n.children.is_empty());
}

#[test]
fn world_insert_and_tag() {
    let mut w = World::new();
    let a = w.insert(Transform::default());
    let b = w.insert(Transform::default());
    w.add_tag(b, Parent(a));
    assert_eq!(w.len(), 2);
    let kids = w.query_children_of(a);
    assert_eq!(kids, vec![b]);
    let rel = w.query_changed_relation();
    assert!(rel.contains(&a) && rel.contains(&b));
    let tr = w.query_changed_transform();
    assert!(tr.contains(&a) && tr.contains(&b));
    w.remove_tag(b);
    assert!(w.query_children_of(a).is_empty());
}

#[test]
fn identity_composition() {
    let i = mat_identity();
    let p = mat_mul_checked(&i, &i).unwrap();
    assert_eq!(p, mat_identity());
}
