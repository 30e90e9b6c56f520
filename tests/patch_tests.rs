use planet_lod::lattice::{lattice_triangles, Lattice, L_POINTS, L_QUADS};
use planet_lod::patch::{CubePoint, Facing, Patch, Quadrant};

#[test]
fn children_offsets_step_by_half_scale() {
    let p = Patch::root(Facing::East).child(Quadrant::UR).child(Quadrant::DL);
    assert_eq!(p.level(), 2);
    // (1, 1) / 2 + (-1, -1) / 4 = (1, 1) / 4.
    assert_eq!(p.offset(), (1, 1));
    let kids = p.children();
    let offsets: Vec<(i64, i64)> = kids.iter().map(|k| k.offset()).collect();
    assert_eq!(offsets, vec![(1, 3), (3, 3), (1, 1), (3, 1)]);
    for k in &kids {
        assert_eq!(k.level(), 3);
        assert_eq!(k.facing, Facing::East);
    }
}

#[test]
fn children_tile_parent() {
    // In units of 1/8: the parent at (1, 1)/4 spans [0, 4) on each axis;
    // each child spans 2 units around its centre.
    let p = Patch::root(Facing::North).child(Quadrant::UR).child(Quadrant::DL);
    let (px, py) = p.offset();
    let parent = ((px - 1) * 2, (px + 1) * 2, (py - 1) * 2, (py + 1) * 2);
    for x in -8..8i64 {
        for y in -8..8i64 {
            let inside = parent.0 <= x && x < parent.1 && parent.2 <= y && y < parent.3;
            let hits = p
                .children()
                .iter()
                .filter(|c| {
                    let (cx, cy) = c.offset();
                    cx - 1 <= x && x < cx + 1 && cy - 1 <= y && y < cy + 1
                })
                .count();
            assert_eq!(hits, if inside { 1 } else { 0 });
        }
    }
}

#[test]
fn quadrant_vectors_and_indices() {
    assert_eq!(Quadrant::UL.vector(), (-1, 1));
    assert_eq!(Quadrant::UR.vector(), (1, 1));
    assert_eq!(Quadrant::DL.vector(), (-1, -1));
    assert_eq!(Quadrant::DR.vector(), (1, -1));
    assert_eq!(Quadrant::from_index(2), Some(Quadrant::DL));
    assert_eq!(Quadrant::from_index(4), None);
    assert_eq!(Facing::from_index(4), Some(Facing::Up));
    assert_eq!(Facing::from_index(6), None);
    assert_eq!(
        Facing::all(),
        [Facing::North, Facing::South, Facing::East, Facing::West, Facing::Up, Facing::Down]
    );
}

#[test]
fn orientation_of_each_face() {
    let o = |f: Facing| f.orient(2, 3, 5);
    assert_eq!(o(Facing::North), CubePoint { x: -2, y: 3, z: -5 });
    assert_eq!(o(Facing::South), CubePoint { x: 2, y: 3, z: 5 });
    assert_eq!(o(Facing::East), CubePoint { x: -5, y: 3, z: 2 });
    assert_eq!(o(Facing::West), CubePoint { x: 5, y: 3, z: -2 });
    assert_eq!(o(Facing::Up), CubePoint { x: -2, y: 5, z: 3 });
    assert_eq!(o(Facing::Down), CubePoint { x: 2, y: -5, z: 3 });
}

#[test]
fn triangle_indices_are_valid() {
    let t = lattice_triangles();
    assert_eq!(t.len(), 2 * L_QUADS * L_QUADS);
    assert!(t.iter().flatten().all(|&i| (i as usize) < L_POINTS * L_POINTS));
    assert_eq!(t[0], [0, 1, 34]);
    assert_eq!(t[1], [0, 34, 33]);
    let c = 5 * 32 + 7;
    assert_eq!(t[2 * c], [5 * 33 + 7, 5 * 33 + 8, 6 * 33 + 8]);
    assert_eq!(t[2 * c + 1], [5 * 33 + 7, 6 * 33 + 8, 6 * 33 + 7]);
    for c in 0..L_QUADS * L_QUADS {
        assert_eq!(t[2 * c][0], t[2 * c + 1][0]);
        assert_eq!(t[2 * c][2], t[2 * c + 1][1]);
    }
}

#[test]
fn root_lattice_spans_face() {
    let l = Lattice::new(&Patch::root(Facing::South));
    assert_eq!(l.denominator, 16);
    assert_eq!(l.points.len(), 33 * 33);
    assert_eq!(l.points[0], CubePoint { x: -16, y: -16, z: 16 });
    assert_eq!(l.points[16 * 33 + 16], CubePoint { x: 0, y: 0, z: 16 });
    assert_eq!(l.points[33 * 33 - 1], CubePoint { x: 16, y: 16, z: 16 });
    assert_eq!(l.triangles, lattice_triangles());
}

#[test]
fn child_lattice_spans_its_quarter() {
    let l = Lattice::new(&Patch::root(Facing::North).child(Quadrant::UR));
    assert_eq!(l.denominator, 32);
    // Face-local square [0, 1] x [0, 1], i.e. [0, 32] over 32; North
    // negates the first coordinate.
    assert_eq!(l.points[0], CubePoint { x: 0, y: 0, z: -32 });
    assert_eq!(l.points[33 * 33 - 1], CubePoint { x: -32, y: 32, z: -32 });
}
