use planet_lod::geometry::{Point, PointSampler, UNITS_PER_WORLD};
use planet_lod::patch::{Facing, Patch, Quadrant};
use planet_lod::tree::{QuadInfo, TransitionKind, Tree};

const U: i32 = UNITS_PER_WORLD as i32;

fn world(x: i32, y: i32, z: i32) -> Point {
    Point { x: x * U, y: y * U, z: z * U }
}

/// The centre of each face at radius 100, in root order.
fn face_centre(f: Facing) -> Point {
    match f {
        Facing::North => world(0, 0, -100),
        Facing::South => world(0, 0, 100),
        Facing::East => world(-100, 0, 0),
        Facing::West => world(100, 0, 0),
        Facing::Up => world(0, 100, 0),
        Facing::Down => world(0, -100, 0),
    }
}

fn leaf(mesh: u32, points: Vec<Point>) -> QuadInfo<u32> {
    QuadInfo { mesh, sampler: PointSampler::new(points) }
}

fn planet() -> Tree<u32> {
    let leaves = Facing::all()
        .iter()
        .enumerate()
        .map(|(i, f)| leaf(i as u32, vec![face_centre(*f)]))
        .collect();
    Tree::new(leaves)
}

fn meshes(tree: &Tree<u32>) -> Vec<u32> {
    let mut out = Vec::new();
    tree.collect_meshes(&mut out);
    out.into_iter().copied().collect()
}

#[test]
fn far_viewer_keeps_six_leaves() {
    let tree = planet();
    let viewer = world(0, 0, 1000);
    assert!(tree.process(viewer).is_empty());
    assert_eq!(meshes(&tree), vec![0, 1, 2, 3, 4, 5]);
}

#[test]
fn near_viewer_subdivides_one_root() {
    let mut tree = planet();
    let viewer = world(0, 0, 105);
    let plan = tree.process(viewer);
    assert_eq!(plan.len(), 1);
    assert_eq!(plan[0].kind, TransitionKind::Subdivide);
    assert_eq!(plan[0].patch.facing, Facing::South);
    assert!(plan[0].patch.path.is_empty());

    let kids = (10..14).map(|m| leaf(m, vec![face_centre(Facing::South)])).collect();
    assert!(tree.subdivide(&plan[0].patch, kids));
    assert_eq!(meshes(&tree), vec![0, 10, 11, 12, 13, 2, 3, 4, 5]);
    assert_eq!(meshes(&tree).len(), 9);
}

#[test]
fn viewer_in_band_changes_nothing() {
    // Distance 11 world units from the only point: 121 lies between the
    // subdivision threshold 100 and the collapse threshold 150.
    let mut tree = planet();
    let viewer = world(0, 0, 111);
    for _ in 0..3 {
        assert!(tree.process(viewer).is_empty());
    }
    let kids = (10..14).map(|m| leaf(m, vec![])).collect();
    assert!(tree.subdivide(&Patch::root(Facing::South), kids));
    for _ in 0..3 {
        assert!(tree.process(viewer).is_empty());
    }
    assert_eq!(meshes(&tree).len(), 9);
}

#[test]
fn far_branch_collapses_back_to_same_patch() {
    let mut tree = planet();
    let root = Patch::root(Facing::South);
    let kids = (10..14).map(|m| leaf(m, vec![])).collect();
    assert!(tree.subdivide(&root, kids));
    let plan = tree.process(world(0, 0, 1000));
    assert_eq!(plan.len(), 1);
    assert_eq!(plan[0].kind, TransitionKind::Collapse);
    assert_eq!(plan[0].patch.facing, Facing::South);
    assert!(plan[0].patch.path.is_empty());
    assert!(tree.collapse(&plan[0].patch, leaf(20, vec![face_centre(Facing::South)])));
    assert_eq!(meshes(&tree), vec![0, 20, 2, 3, 4, 5]);
}

#[test]
fn transitions_at_missing_nodes_change_nothing() {
    let mut tree = planet();
    let deep = Patch::root(Facing::Up).child(Quadrant::DL);
    let kids = (10..14).map(|m| leaf(m, vec![])).collect();
    assert!(!tree.subdivide(&deep, kids));
    assert!(!tree.collapse(&Patch::root(Facing::Up), leaf(30, vec![])));
    assert_eq!(meshes(&tree), vec![0, 1, 2, 3, 4, 5]);
}

#[test]
fn fresh_children_with_empty_samplers_do_not_subdivide() {
    let mut tree = planet();
    let kids = (10..14).map(|m| leaf(m, vec![])).collect();
    assert!(tree.subdivide(&Patch::root(Facing::South), kids));
    // Right at the only point of the branch: closer than any threshold,
    // yet the empty leaves below ask for nothing.
    assert!(tree.process(world(0, 0, 100)).is_empty());
}

#[test]
fn deeper_children_are_visited_in_order() {
    let mut tree = planet();
    let root = Patch::root(Facing::South);
    let near = world(0, 0, 101);
    let kids = (10..14).map(|m| leaf(m, vec![near])).collect();
    assert!(tree.subdivide(&root, kids));
    let plan = tree.process(near);
    let paths: Vec<Vec<Quadrant>> = plan.iter().map(|t| t.patch.path.clone()).collect();
    assert_eq!(
        paths,
        vec![vec![Quadrant::UL], vec![Quadrant::UR], vec![Quadrant::DL], vec![Quadrant::DR]]
    );
    assert!(plan.iter().all(|t| t.kind == TransitionKind::Subdivide));
}
