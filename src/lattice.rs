use vstd::prelude::*;
use crate::patch::{point_is, offset_num, orient, pow2, CubePoint, Facing, Patch, Quadrant, MAX_LEVEL};

verus! {

/// Quads along each side of a patch's lattice.
pub const L_QUADS: usize = 32;

/// Lattice points along each side of a patch.
pub const L_POINTS: usize = 33;

/// Index of lattice point `(x, y)` in row-major order.
pub open spec fn grid_index(x: int, y: int) -> int {
    y * 33 + x
}

/// Whether a triangle holds the three lattice indices `a`, `b`, `c`.
pub open spec fn tri_is(t: [u16; 3], a: int, b: int, c: int) -> bool {
    t@[0] == a && t@[1] == b && t@[2] == c
}

/// The triangle list of a lattice: for cell `(x, y)`, with corners
/// `i0 = (x, y)`, `i1 = (x + 1, y)`, `i2 = (x + 1, y + 1)`, `i3 = (x, y + 1)`,
/// the triangles `(i0, i1, i2)` and `(i0, i2, i3)`, cells in row-major
/// order.
pub open spec fn is_grid_triangles(s: Seq<[u16; 3]>) -> bool {
    &&& s.len() == 2 * 32 * 32
    &&& forall|x: int, y: int|
        0 <= x < 32 && 0 <= y < 32 ==> {
            &&& tri_is(
                #[trigger] s[2 * (y * 32 + x)],
                grid_index(x, y),
                grid_index(x + 1, y),
                grid_index(x + 1, y + 1),
            )
            &&& tri_is(
                s[2 * (y * 32 + x) + 1],
                grid_index(x, y),
                grid_index(x + 1, y + 1),
                grid_index(x, y + 1),
            )
        }
}

/// The triangle indices of a patch's lattice, two per cell.
pub fn lattice_triangles() -> (r: Vec<[u16; 3]>)
    ensures
        is_grid_triangles(r@),
{
    let mut triangles: Vec<[u16; 3]> = Vec::new();
    let mut y: usize = 0;
    while y < L_QUADS
        invariant
            y <= 32,
            triangles@.len() == 2 * (y * 32),
            forall|xx: int, yy: int|
                0 <= xx < 32 && 0 <= yy < y ==> {
                    &&& tri_is(
                        #[trigger] triangles@[2 * (yy * 32 + xx)],
                        grid_index(xx, yy),
                        grid_index(xx + 1, yy),
                        grid_index(xx + 1, yy + 1),
                    )
                    &&& tri_is(
                        triangles@[2 * (yy * 32 + xx) + 1],
                        grid_index(xx, yy),
                        grid_index(xx + 1, yy + 1),
                        grid_index(xx, yy + 1),
                    )
                },
        decreases 32 - y,
    {
        let mut x: usize = 0;
        while x < L_QUADS
            invariant
                y < 32,
                x <= 32,
                triangles@.len() == 2 * (y * 32 + x),
                forall|xx: int, yy: int|
                    0 <= xx < 32 && 0 <= yy < 32 && yy * 32 + xx < y * 32 + x ==> {
                        &&& tri_is(
                            #[trigger] triangles@[2 * (yy * 32 + xx)],
                            grid_index(xx, yy),
                            grid_index(xx + 1, yy),
                            grid_index(xx + 1, yy + 1),
                        )
                        &&& tri_is(
                            triangles@[2 * (yy * 32 + xx) + 1],
                            grid_index(xx, yy),
                            grid_index(xx + 1, yy + 1),
                            grid_index(xx, yy + 1),
                        )
                    },
            decreases 32 - x,
        {
            let i0 = (y * L_POINTS + x) as u16;
            let i1 = (y * L_POINTS + x + 1) as u16;
            let i2 = ((y + 1) * L_POINTS + x + 1) as u16;
            let i3 = ((y + 1) * L_POINTS + x) as u16;
            triangles.push([i0, i1, i2]);
            triangles.push([i0, i2, i3]);
            x += 1;
        }
        y += 1;
    }
    triangles
}

/// Every index of a lattice's triangle list names one of its `33²`
/// points, and the two triangles of each cell share the diagonal from its
/// first corner to the opposite one.
pub proof fn lemma_triangle_indices_valid(s: Seq<[u16; 3]>)
    requires
        is_grid_triangles(s),
    ensures
        forall|k: int, j: int| 0 <= k < s.len() && 0 <= j < 3 ==> #[trigger] s[k]@[j] < 33 * 33,
        forall|x: int, y: int|
            0 <= x < 32 && 0 <= y < 32 ==> #[trigger] s[2 * (y * 32 + x)]@[0] == s[2 * (y * 32
                + x) + 1]@[0] && s[2 * (y * 32 + x)]@[2] == s[2 * (y * 32 + x) + 1]@[1],
{
    assert forall|k: int, j: int| 0 <= k < s.len() && 0 <= j < 3 implies #[trigger] s[k]@[j] < 33
        * 33 by {
        let c = k / 2;
        let x = c % 32;
        let y = c / 32;
        vstd::arithmetic::div_mod::lemma_fundamental_div_mod(k, 2);
        vstd::arithmetic::div_mod::lemma_fundamental_div_mod(c, 32);
        assert(0 <= y < 32);
        assert(k == 2 * (y * 32 + x) || k == 2 * (y * 32 + x) + 1);
        assert(tri_is(
            s[2 * (y * 32 + x)],
            grid_index(x, y),
            grid_index(x + 1, y),
            grid_index(x + 1, y + 1),
        ));
    }
}

/// The cube point of lattice point `(x, y)` of the patch `(f, path)`, over
/// the denominator `16 · 2^level`: the face-local coordinate is
/// `offset + flat · scale` with `flat = 2x / 32 - 1`.
pub open spec fn lattice_point(f: Facing, path: Seq<Quadrant>, x: int, y: int) -> (int, int, int) {
    let (nx, ny) = offset_num(path);
    orient(f, 16 * nx + x - 16, 16 * ny + y - 16, 16 * pow2(path.len()) as int)
}

/// The points of one patch's lattice before projection onto the sphere,
/// with its triangles.
pub struct Lattice {
    /// The `33²` lattice points in row-major order.
    pub points: Vec<CubePoint>,
    pub triangles: Vec<[u16; 3]>,
    /// The common denominator of the points' coordinates.
    pub denominator: i64,
}


proof fn lemma_offset_bound_at(path: Seq<Quadrant>)
    requires
        path.len() <= MAX_LEVEL,
    ensures
        -0x100_0000_0000 < offset_num(path).0 < 0x100_0000_0000,
        -0x100_0000_0000 < offset_num(path).1 < 0x100_0000_0000,
        1 <= pow2(path.len()) <= 0x100_0000_0000,
{
    crate::patch::lemma_offset_bound(path);
    crate::patch::lemma_pow2_mono(path.len(), MAX_LEVEL as nat);
    crate::patch::lemma_pow2_mono(0, path.len());
    assert(pow2(40) == 0x100_0000_0000) by {
        reveal_with_fuel(pow2, 41);
    }
}

impl Lattice {
    /// The lattice of `patch`: point `(x, y)` at index `33y + x` lies at
    /// `lattice_point(facing, path, x, y) / denominator`.
    pub fn new(patch: &Patch) -> (r: Lattice)
        requires
            patch.path@.len() <= MAX_LEVEL,
        ensures
            r.denominator == 16 * pow2(patch.path@.len()),
            r.points@.len() == 33 * 33,
            forall|x: int, y: int|
                0 <= x < 33 && 0 <= y < 33 ==> point_is(
                    #[trigger] r.points@[grid_index(x, y)],
                    lattice_point(patch.facing, patch.path@, x, y),
                ),
            is_grid_triangles(r.triangles@),
    {
        let (nx, ny) = patch.offset();
        let level = patch.level();
        proof {
            lemma_offset_bound_at(patch.path@);
        }
        let mut w: i64 = 16;
        let mut i: usize = 0;
        while i < level
            invariant
                i <= level == patch.path@.len() <= MAX_LEVEL,
                w == 16 * pow2(i as nat),
                pow2(level as nat) <= 0x100_0000_0000,
            decreases level - i,
        {
            proof {
                crate::patch::lemma_pow2_mono((i + 1) as nat, level as nat);
            }
            w = w * 2;
            i += 1;
        }
        let mut points: Vec<CubePoint> = Vec::new();
        let mut y: usize = 0;
        while y < L_POINTS
            invariant
                y <= 33,
                w == 16 * pow2(patch.path@.len()),
                nx == offset_num(patch.path@).0,
                ny == offset_num(patch.path@).1,
                -0x100_0000_0000 < nx < 0x100_0000_0000,
                -0x100_0000_0000 < ny < 0x100_0000_0000,
                1 <= pow2(patch.path@.len()) <= 0x100_0000_0000,
                points@.len() == y * 33,
                forall|xx: int, yy: int|
                    0 <= xx < 33 && 0 <= yy < y ==> point_is(
                        #[trigger] points@[grid_index(xx, yy)],
                        lattice_point(patch.facing, patch.path@, xx, yy),
                    ),
            decreases 33 - y,
        {
            let mut x: usize = 0;
            while x < L_POINTS
                invariant
                    y < 33,
                    x <= 33,
                    w == 16 * pow2(patch.path@.len()),
                    nx == offset_num(patch.path@).0,
                    ny == offset_num(patch.path@).1,
                    -0x100_0000_0000 < nx < 0x100_0000_0000,
                    -0x100_0000_0000 < ny < 0x100_0000_0000,
                    1 <= pow2(patch.path@.len()) <= 0x100_0000_0000,
                    points@.len() == y * 33 + x,
                    forall|xx: int, yy: int|
                        0 <= xx < 33 && 0 <= yy < 33 && yy * 33 + xx < y * 33 + x ==> point_is(
                            #[trigger] points@[grid_index(xx, yy)],
                            lattice_point(patch.facing, patch.path@, xx, yy),
                        ),
                decreases 33 - x,
            {
                let u = 16 * nx + x as i64 - 16;
                let v = 16 * ny + y as i64 - 16;
                let p = patch.facing.orient(u, v, w);
                points.push(p);
                x += 1;
            }
            y += 1;
        }
        Lattice { points, triangles: lattice_triangles(), denominator: w }
    }
}

} // verus!
