use vstd::prelude::*;

verus! {

/// One of the six faces of the cube that is projected onto the sphere.
#[derive(Clone, Copy, Debug, PartialEq, Eq, Structural)]
pub enum Facing {
    North,
    South,
    East,
    West,
    Up,
    Down,
}

/// The six facings, in the order in which a tree holds its roots.
pub open spec fn facing_order() -> Seq<Facing> {
    seq![Facing::North, Facing::South, Facing::East, Facing::West, Facing::Up, Facing::Down]
}

impl Facing {
    /// All six facings, in root order.
    pub fn all() -> (r: [Facing; 6])
        ensures
            r@ == facing_order(),
    {
        let r = [Facing::North, Facing::South, Facing::East, Facing::West, Facing::Up, Facing::Down];
        assert(r@ =~= facing_order());
        r
    }
}

/// Maps a face-local point `(u, v)` onto the cube face, where `w` stands
/// for the face's distance from the centre (all three in one unit).
pub open spec fn orient(f: Facing, u: int, v: int, w: int) -> (int, int, int) {
    match f {
        Facing::North => (-u, v, -w),
        Facing::South => (u, v, w),
        Facing::East => (-w, v, u),
        Facing::West => (w, v, -u),
        Facing::Up => (-u, w, v),
        Facing::Down => (u, -w, v),
    }
}

/// A point on the surface of the cube, in units of `1 / denominator` of the
/// cube's half-width.
#[derive(Clone, Copy, Debug, PartialEq, Eq, Structural)]
pub struct CubePoint {
    pub x: i64,
    pub y: i64,
    pub z: i64,
}

/// Whether a cube point has the coordinates `c`.
pub open spec fn point_is(p: CubePoint, c: (int, int, int)) -> bool {
    p.x == c.0 && p.y == c.1 && p.z == c.2
}

impl Facing {
    /// The facing at position `i` of the root order, if `i < 6`.
    pub fn from_index(i: usize) -> (r: Option<Facing>)
        ensures
            i < 6 ==> r == Some(facing_order()[i as int]),
            i >= 6 ==> r is None,
    {
        match i {
            0 => Some(Facing::North),
            1 => Some(Facing::South),
            2 => Some(Facing::East),
            3 => Some(Facing::West),
            4 => Some(Facing::Up),
            5 => Some(Facing::Down),
            _ => None,
        }
    }

    /// Maps the face-local point `(u, v)` onto this face of the cube, `w`
    /// being the face's distance from the centre in the same unit.
    pub fn orient(&self, u: i64, v: i64, w: i64) -> (r: CubePoint)
        requires
            u > i64::MIN,
            v > i64::MIN,
            w > i64::MIN,
        ensures
            point_is(r, orient(*self, u as int, v as int, w as int)),
    {
        match self {
            Facing::North => CubePoint { x: -u, y: v, z: -w },
            Facing::South => CubePoint { x: u, y: v, z: w },
            Facing::East => CubePoint { x: -w, y: v, z: u },
            Facing::West => CubePoint { x: w, y: v, z: -u },
            Facing::Up => CubePoint { x: -u, y: w, z: v },
            Facing::Down => CubePoint { x: u, y: -w, z: v },
        }
    }
}

/// One of the four children of a patch.
#[derive(Clone, Copy, Debug, PartialEq, Eq, Structural)]
pub enum Quadrant {
    UL,
    UR,
    DL,
    DR,
}

/// The four quadrants, in the order in which a branch holds its children.
pub open spec fn quadrant_order() -> Seq<Quadrant> {
    seq![Quadrant::UL, Quadrant::UR, Quadrant::DL, Quadrant::DR]
}

/// The direction of a quadrant's centre from its parent's centre.
pub open spec fn quad_vec(q: Quadrant) -> (int, int) {
    match q {
        Quadrant::UL => (-1, 1),
        Quadrant::UR => (1, 1),
        Quadrant::DL => (-1, -1),
        Quadrant::DR => (1, -1),
    }
}

impl Quadrant {
    /// The direction of this quadrant's centre from its parent's centre.
    pub fn vector(&self) -> (r: (i64, i64))
        ensures
            r.0 == quad_vec(*self).0,
            r.1 == quad_vec(*self).1,
    {
        match self {
            Quadrant::UL => (-1, 1),
            Quadrant::UR => (1, 1),
            Quadrant::DL => (-1, -1),
            Quadrant::DR => (1, -1),
        }
    }

    /// The quadrant at position `i` of the child order, if `i < 4`.
    pub fn from_index(i: usize) -> (r: Option<Quadrant>)
        ensures
            i < 4 ==> r == Some(quadrant_order()[i as int]),
            i >= 4 ==> r is None,
    {
        match i {
            0 => Some(Quadrant::UL),
            1 => Some(Quadrant::UR),
            2 => Some(Quadrant::DL),
            3 => Some(Quadrant::DR),
            _ => None,
        }
    }
}

/// `2^n`.
pub open spec fn pow2(n: nat) -> nat
    decreases n,
{
    if n == 0 {
        1
    } else {
        2 * pow2((n - 1) as nat)
    }
}

/// The centre of the patch reached by `path`, in units of its own scale
/// `2^-path.len()`; the patch spans one such unit on each side of it.
pub open spec fn offset_num(path: Seq<Quadrant>) -> (int, int)
    decreases path.len(),
{
    if path.len() == 0 {
        (0, 0)
    } else {
        let (x, y) = offset_num(path.drop_last());
        let (vx, vy) = quad_vec(path.last());
        (2 * x + vx, 2 * y + vy)
    }
}

/// A square region of one cube face: the root patch of `facing` with scale
/// 1 and offset 0, subdivided along `path`.  A patch with `n` steps in its
/// path has scale `2^-n`.
pub struct Patch {
    pub facing: Facing,
    pub path: Vec<Quadrant>,
}

impl View for Patch {
    type V = (Facing, Seq<Quadrant>);

    open spec fn view(&self) -> (Facing, Seq<Quadrant>) {
        (self.facing, self.path@)
    }
}

fn copy_path(path: &Vec<Quadrant>) -> (r: Vec<Quadrant>)
    ensures
        r@ == path@,
{
    let mut r: Vec<Quadrant> = Vec::new();
    let mut i: usize = 0;
    while i < path.len()
        invariant
            i <= path@.len(),
            r@ == path@.subrange(0, i as int),
        decreases path@.len() - i,
    {
        r.push(path[i]);
        i += 1;
    }
    assert(r@ =~= path@);
    r
}

pub(crate) proof fn lemma_offset_bound(path: Seq<Quadrant>)
    ensures
        -pow2(path.len()) < offset_num(path).0 < pow2(path.len()),
        -pow2(path.len()) < offset_num(path).1 < pow2(path.len()),
    decreases path.len(),
{
    if path.len() > 0 {
        lemma_offset_bound(path.drop_last());
    }
}

pub(crate) proof fn lemma_pow2_mono(m: nat, n: nat)
    requires
        m <= n,
    ensures
        1 <= pow2(m) <= pow2(n),
    decreases n,
{
    if n > 0 {
        if m < n {
            lemma_pow2_mono(m, (n - 1) as nat);
        } else {
            lemma_pow2_mono((m - 1) as nat, (n - 1) as nat);
        }
    }
}

/// The deepest level whose patches this library can describe exactly in
/// 64-bit coordinates; patches at this level are not subdivided.
pub const MAX_LEVEL: usize = 40;

impl Patch {
    /// The root patch of a face.
    pub fn root(facing: Facing) -> (r: Patch)
        ensures
            r@ == (facing, Seq::<Quadrant>::empty()),
    {
        Patch { facing, path: Vec::new() }
    }

    /// Depth of the patch below its root; its scale is `2^-level`.
    pub fn level(&self) -> (r: usize)
        ensures
            r == self.path@.len(),
    {
        self.path.len()
    }

    /// The child of this patch in quadrant `q`.
    pub fn child(&self, q: Quadrant) -> (r: Patch)
        ensures
            r@ == (self.facing, self.path@.push(q)),
    {
        let mut path = copy_path(&self.path);
        path.push(q);
        Patch { facing: self.facing, path }
    }

    /// The four children of this patch, in child order.
    pub fn children(&self) -> (r: Vec<Patch>)
        ensures
            r@.len() == 4,
            forall|i: int|
                0 <= i < 4 ==> #[trigger] r@[i]@ == (self.facing, self.path@.push(quadrant_order()[i])),
    {
        let mut r: Vec<Patch> = Vec::new();
        r.push(self.child(Quadrant::UL));
        r.push(self.child(Quadrant::UR));
        r.push(self.child(Quadrant::DL));
        r.push(self.child(Quadrant::DR));
        r
    }

    /// A copy of this patch.
    pub fn duplicate(&self) -> (r: Patch)
        ensures
            r@ == self@,
    {
        Patch { facing: self.facing, path: copy_path(&self.path) }
    }

    /// The centre of the patch in units of its own scale: the offset is
    /// this pair times `2^-level`.
    pub fn offset(&self) -> (r: (i64, i64))
        requires
            self.path@.len() <= MAX_LEVEL,
        ensures
            r.0 == offset_num(self.path@).0,
            r.1 == offset_num(self.path@).1,
    {
        let mut x: i64 = 0;
        let mut y: i64 = 0;
        let mut i: usize = 0;
        while i < self.path.len()
            invariant
                i <= self.path@.len() <= MAX_LEVEL,
                x == offset_num(self.path@.subrange(0, i as int)).0,
                y == offset_num(self.path@.subrange(0, i as int)).1,
            decreases self.path@.len() - i,
        {
            proof {
                let s = self.path@.subrange(0, i as int);
                lemma_offset_bound(s);
                lemma_pow2_mono(i as nat, MAX_LEVEL as nat);
                assert(pow2(40) == 0x100_0000_0000) by {
                    reveal_with_fuel(pow2, 41);
                }
                assert(self.path@.subrange(0, i + 1).drop_last() =~= s);
            }
            let (vx, vy) = self.path[i].vector();
            x = 2 * x + vx;
            y = 2 * y + vy;
            i += 1;
        }
        assert(self.path@.subrange(0, i as int) =~= self.path@);
        (x, y)
    }
}

/// Whether the point `(x / 2^depth, y / 2^depth)` of the face plane lies in
/// the half-open square of the patch at `path`: centre `offset_num(path)`
/// times the patch scale, one scale to each side.
pub open spec fn in_patch(path: Seq<Quadrant>, x: int, y: int, depth: nat) -> bool {
    let s = pow2((depth - path.len()) as nat) as int;
    let (nx, ny) = offset_num(path);
    &&& (nx - 1) * s <= x < (nx + 1) * s
    &&& (ny - 1) * s <= y < (ny + 1) * s
}

/// A child's offset is its parent's offset moved by half the parent's
/// scale in each axis, the sign of each step given by the quadrant; its
/// scale is half the parent's.
pub proof fn lemma_child_offset(path: Seq<Quadrant>, q: Quadrant)
    ensures
        offset_num(path.push(q)).0 == 2 * offset_num(path).0 + quad_vec(q).0,
        offset_num(path.push(q)).1 == 2 * offset_num(path).1 + quad_vec(q).1,
        path.push(q).len() == path.len() + 1,
{
    assert(path.push(q).drop_last() =~= path);
}

proof fn lemma_half_interval(n: int, v: int, s: int, x: int)
    requires
        s >= 1,
        v == 1 || v == -1,
    ensures
        ((2 * n + v - 1) * s <= x < (2 * n + v + 1) * s) ==> ((n - 1) * (2 * s) <= x < (n + 1) * (2
            * s)),
        ((n - 1) * (2 * s) <= x < (n + 1) * (2 * s)) ==> ((2 * n - 2) * s <= x < (2 * n) * s || (2
            * n) * s <= x < (2 * n + 2) * s),
        !((2 * n - 2) * s <= x < (2 * n) * s && (2 * n) * s <= x < (2 * n + 2) * s),
{
    assert((n - 1) * (2 * s) == (2 * n - 2) * s) by (nonlinear_arith);
    assert((n + 1) * (2 * s) == (2 * n + 2) * s) by (nonlinear_arith);
    assert((2 * n + v - 1) * s == 2 * n * s + v * s - s) by (nonlinear_arith);
    assert((2 * n + v + 1) * s == 2 * n * s + v * s + s) by (nonlinear_arith);
    assert((2 * n - 2) * s == 2 * n * s - 2 * s) by (nonlinear_arith);
    assert((2 * n + 2) * s == 2 * n * s + 2 * s) by (nonlinear_arith);
    assert(v * s == s || v * s == -s) by (nonlinear_arith)
        requires v == 1 || v == -1;
}

/// The four children of a patch tile it: every point of the parent's
/// square lies in exactly one child's square, and every point of a child's
/// square lies in the parent's.
pub proof fn lemma_children_partition(path: Seq<Quadrant>, x: int, y: int, depth: nat)
    requires
        depth > path.len(),
    ensures
        forall|q: Quadrant| #[trigger] in_patch(path.push(q), x, y, depth) ==> in_patch(path, x, y, depth),
        in_patch(path, x, y, depth) ==> exists|q: Quadrant| #[trigger] in_patch(path.push(q), x, y, depth),
        forall|q1: Quadrant, q2: Quadrant|
            q1 != q2 && #[trigger] in_patch(path.push(q1), x, y, depth) ==> !#[trigger] in_patch(path.push(q2), x, y, depth),
{
    let s = pow2((depth - path.len() - 1) as nat) as int;
    assert(pow2((depth - path.len()) as nat) == 2 * s);
    lemma_pow2_mono(0, (depth - path.len() - 1) as nat);
    let (nx, ny) = offset_num(path);
    assert forall|q: Quadrant| true implies #[trigger] pow2((depth - path.push(q).len()) as nat) == s
        && offset_num(path.push(q)).0 == 2 * nx + quad_vec(q).0
        && offset_num(path.push(q)).1 == 2 * ny + quad_vec(q).1 by {
        lemma_child_offset(path, q);
    }
    lemma_half_interval(nx, 1, s, x);
    lemma_half_interval(nx, -1, s, x);
    lemma_half_interval(ny, 1, s, y);
    lemma_half_interval(ny, -1, s, y);
    if in_patch(path, x, y, depth) {
        let qx = (2 * nx) * s <= x;
        let qy = (2 * ny) * s <= y;
        let q = if qx {
            if qy { Quadrant::UR } else { Quadrant::DR }
        } else {
            if qy { Quadrant::UL } else { Quadrant::DL }
        };
        assert(in_patch(path.push(q), x, y, depth));
    }
}

} // verus!
