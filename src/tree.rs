use vstd::prelude::*;
use crate::geometry::{
    collapse_due, lemma_hysteresis_band, min_dist2, pow4, should_collapse, should_subdivide,
    subdivide_due, Point, PointSampler, COLLAPSE_LIMIT, SUBDIVIDE_LIMIT,
};
use crate::patch::{facing_order, Facing, Patch, Quadrant, MAX_LEVEL};

verus! {

/// A generated patch: its drawable mesh handle and the sampler over its
/// positions.
pub struct QuadInfo<M> {
    pub mesh: M,
    pub sampler: PointSampler,
}

/// A node of one face's quadtree.  A branch keeps its four children in the
/// order upper-left, upper-right, lower-left, lower-right, and the sampler
/// of the leaf it replaced, against which it decides to collapse.
pub enum Quad<M> {
    Leaf(QuadInfo<M>),
    Branch(Box<Quad<M>>, Box<Quad<M>>, Box<Quad<M>>, Box<Quad<M>>, PointSampler),
}

/// What a planning pass asks for.
#[derive(Clone, Copy, Debug, PartialEq, Eq, Structural)]
pub enum TransitionKind {
    /// Replace the leaf with a branch of four freshly generated leaves.
    Subdivide,
    /// Replace the branch with one freshly generated leaf.
    Collapse,
}

/// A structural change that a planning pass asks for, at one patch.
pub struct Transition {
    pub kind: TransitionKind,
    pub patch: Patch,
}

impl View for Transition {
    type V = (TransitionKind, (Facing, Seq<Quadrant>));

    open spec fn view(&self) -> (TransitionKind, (Facing, Seq<Quadrant>)) {
        (self.kind, self.patch@)
    }
}

/// The views of a sequence of transitions.
pub open spec fn views(s: Seq<Transition>) -> Seq<(TransitionKind, (Facing, Seq<Quadrant>))> {
    s.map_values(|t: Transition| t@)
}

/// The values behind a sequence of references.
pub open spec fn derefs<'a, M>(s: Seq<&'a M>) -> Seq<M> {
    s.map_values(|r: &'a M| *r)
}

/// The meshes of a subtree's leaves, depth first, children in order.
pub open spec fn meshes<M>(q: Quad<M>) -> Seq<M>
    decreases q,
{
    match q {
        Quad::Leaf(info) => seq![info.mesh],
        Quad::Branch(a, b, c, d, _) => meshes(*a) + meshes(*b) + meshes(*c) + meshes(*d),
    }
}

/// The transitions that one pass over the subtree `q`, which stands at the
/// patch `(f, path)`, decides for a viewer at `viewer`.  A leaf subdivides
/// when its sampler is nearer than the subdivision threshold of its level
/// (and it is above the deepest level); a branch collapses when its sampler
/// is farther than the collapse threshold, and otherwise passes the
/// decision to its children in order.  Nodes that a pass changes are not
/// visited further.
pub open spec fn plan<M>(q: Quad<M>, f: Facing, path: Seq<Quadrant>, viewer: Point) -> Seq<
    (TransitionKind, (Facing, Seq<Quadrant>)),
>
    decreases q,
{
    match q {
        Quad::Leaf(info) => {
            if path.len() < MAX_LEVEL && subdivide_due(
                min_dist2(info.sampler.points(), viewer),
                path.len(),
            ) {
                seq![(TransitionKind::Subdivide, (f, path))]
            } else {
                seq![]
            }
        },
        Quad::Branch(a, b, c, d, s) => {
            if collapse_due(min_dist2(s.points(), viewer), path.len()) {
                seq![(TransitionKind::Collapse, (f, path))]
            } else {
                plan(*a, f, path.push(Quadrant::UL), viewer) + plan(
                    *b,
                    f,
                    path.push(Quadrant::UR),
                    viewer,
                ) + plan(*c, f, path.push(Quadrant::DL), viewer) + plan(
                    *d,
                    f,
                    path.push(Quadrant::DR),
                    viewer,
                )
            }
        },
    }
}

/// Every leaf of the subtree at depth `depth` lies at most at the deepest
/// level.
pub open spec fn quad_wf<M>(q: Quad<M>, depth: nat) -> bool
    decreases q,
{
    match q {
        Quad::Leaf(_) => depth <= MAX_LEVEL,
        Quad::Branch(a, b, c, d, _) => {
            &&& depth < MAX_LEVEL
            &&& quad_wf(*a, depth + 1)
            &&& quad_wf(*b, depth + 1)
            &&& quad_wf(*c, depth + 1)
            &&& quad_wf(*d, depth + 1)
        },
    }
}

/// The child of a branch in quadrant `q`.
pub open spec fn child<M>(q: Quad<M>, quadrant: Quadrant) -> Quad<M>
    recommends
        q is Branch,
{
    match q {
        Quad::Branch(a, b, c, d, _) => match quadrant {
            Quadrant::UL => *a,
            Quadrant::UR => *b,
            Quadrant::DL => *c,
            Quadrant::DR => *d,
        },
        Quad::Leaf(_) => q,
    }
}

/// The node that `path` reaches from `q`, if every step but the last
/// passes through a branch.
pub open spec fn node_at<M>(q: Quad<M>, path: Seq<Quadrant>) -> Option<Quad<M>>
    decreases path.len(),
{
    if path.len() == 0 {
        Some(q)
    } else if q is Leaf {
        None
    } else {
        node_at(child(q, path[0]), path.drop_first())
    }
}

/// `q` with the node that `path` reaches replaced by `n`; `q` itself where
/// `path` reaches no node.
pub open spec fn replace_at<M>(q: Quad<M>, path: Seq<Quadrant>, n: Quad<M>) -> Quad<M>
    decreases path.len(),
{
    if path.len() == 0 {
        n
    } else {
        match q {
            Quad::Leaf(_) => q,
            Quad::Branch(a, b, c, d, s) => {
                let rest = path.drop_first();
                match path[0] {
                    Quadrant::UL => Quad::Branch(Box::new(replace_at(*a, rest, n)), b, c, d, s),
                    Quadrant::UR => Quad::Branch(a, Box::new(replace_at(*b, rest, n)), c, d, s),
                    Quadrant::DL => Quad::Branch(a, b, Box::new(replace_at(*c, rest, n)), d, s),
                    Quadrant::DR => Quad::Branch(a, b, c, Box::new(replace_at(*d, rest, n)), s),
                }
            },
        }
    }
}

/// The branch that replaces a leaf whose sampler was `s`: four new leaves
/// in child order, and the leaf's sampler.
pub open spec fn branch_of<M>(kids: Seq<QuadInfo<M>>, s: PointSampler) -> Quad<M> {
    Quad::Branch(
        Box::new(Quad::Leaf(kids[0])),
        Box::new(Quad::Leaf(kids[1])),
        Box::new(Quad::Leaf(kids[2])),
        Box::new(Quad::Leaf(kids[3])),
        s,
    )
}

/// The sampler of a leaf.
pub open spec fn leaf_sampler<M>(q: Quad<M>) -> PointSampler
    recommends
        q is Leaf,
{
    match q {
        Quad::Leaf(info) => info.sampler,
        Quad::Branch(_, _, _, _, s) => s,
    }
}

proof fn lemma_views_push(s: Seq<Transition>, t: Transition)
    ensures
        views(s.push(t)) == views(s).push(t@),
{
    assert(views(s.push(t)) =~= views(s).push(t@));
}

impl<M> Quad<M> {
    /// Appends to `out` the transitions that this subtree, standing at
    /// `patch`, needs for a viewer at `viewer`.
    pub fn process(&self, viewer: Point, patch: &Patch, out: &mut Vec<Transition>)
        ensures
            views(final(out)@) == views(old(out)@) + plan(*self, patch.facing, patch.path@, viewer),
        decreases self,
    {
        match self {
            Quad::Leaf(info) => {
                let level = patch.level();
                if level < MAX_LEVEL && should_subdivide(info.sampler.distance2(viewer), level) {
                    let t = Transition { kind: TransitionKind::Subdivide, patch: patch.duplicate() };
                    proof {
                        lemma_views_push(out@, t);
                    }
                    out.push(t);
                    assert(views(out@) =~= views(old(out)@) + plan(
                        *self,
                        patch.facing,
                        patch.path@,
                        viewer,
                    ));
                } else {
                    assert(views(out@) =~= views(old(out)@) + plan(
                        *self,
                        patch.facing,
                        patch.path@,
                        viewer,
                    ));
                }
            },
            Quad::Branch(ul, ur, dl, dr, sampler) => {
                if should_collapse(sampler.distance2(viewer), patch.level()) {
                    let t = Transition { kind: TransitionKind::Collapse, patch: patch.duplicate() };
                    proof {
                        lemma_views_push(out@, t);
                    }
                    out.push(t);
                    assert(views(out@) =~= views(old(out)@) + plan(
                        *self,
                        patch.facing,
                        patch.path@,
                        viewer,
                    ));
                } else {
                    ul.process(viewer, &patch.child(Quadrant::UL), out);
                    ur.process(viewer, &patch.child(Quadrant::UR), out);
                    dl.process(viewer, &patch.child(Quadrant::DL), out);
                    dr.process(viewer, &patch.child(Quadrant::DR), out);
                    assert(views(out@) =~= views(old(out)@) + plan(
                        *self,
                        patch.facing,
                        patch.path@,
                        viewer,
                    ));
                }
            },
        }
    }

    /// Replaces the leaf that `path[i..]` reaches with a branch over the
    /// four `children`, keeping the leaf's sampler in the branch; changes
    /// nothing, and answers `false`, where that path reaches no leaf.
    fn subdivide_at(&mut self, path: &Vec<Quadrant>, i: usize, children: Vec<QuadInfo<M>>) -> (applied:
        bool)
        requires
            i <= path@.len(),
            children@.len() == 4,
        ensures
            applied == (node_at(*old(self), path@.subrange(i as int, path@.len() as int)) matches Some(
                Quad::Leaf(_),
            )),
            applied ==> *final(self) == replace_at(
                *old(self),
                path@.subrange(i as int, path@.len() as int),
                branch_of(
                    children@,
                    leaf_sampler(
                        node_at(*old(self), path@.subrange(i as int, path@.len() as int))->0,
                    ),
                ),
            ),
            !applied ==> *final(self) == *old(self),
        decreases path@.len() - i,
    {
        let ghost rest = path@.subrange(i as int, path@.len() as int);
        if i == path.len() {
            match self {
                Quad::Leaf(info) => {
                    let mut sampler = PointSampler::empty();
                    std::mem::swap(&mut sampler, &mut info.sampler);
                    let mut children = children;
                    let dr = children.pop().unwrap();
                    let dl = children.pop().unwrap();
                    let ur = children.pop().unwrap();
                    let ul = children.pop().unwrap();
                    *self = Quad::Branch(
                        Box::new(Quad::Leaf(ul)),
                        Box::new(Quad::Leaf(ur)),
                        Box::new(Quad::Leaf(dl)),
                        Box::new(Quad::Leaf(dr)),
                        sampler,
                    );
                    true
                },
                Quad::Branch(..) => false,
            }
        } else {
            proof {
                assert(rest.drop_first() =~= path@.subrange(i + 1, path@.len() as int));
            }
            match self {
                Quad::Leaf(_) => false,
                Quad::Branch(ul, ur, dl, dr, _) => {
                    match path[i] {
                        Quadrant::UL => ul.subdivide_at(path, i + 1, children),
                        Quadrant::UR => ur.subdivide_at(path, i + 1, children),
                        Quadrant::DL => dl.subdivide_at(path, i + 1, children),
                        Quadrant::DR => dr.subdivide_at(path, i + 1, children),
                    }
                },
            }
        }
    }

    /// Replaces the branch that `path[i..]` reaches with the leaf `leaf`;
    /// changes nothing, and answers `false`, where that path reaches no
    /// branch.
    fn collapse_at(&mut self, path: &Vec<Quadrant>, i: usize, leaf: QuadInfo<M>) -> (applied: bool)
        requires
            i <= path@.len(),
        ensures
            applied == (node_at(*old(self), path@.subrange(i as int, path@.len() as int)) matches Some(
                Quad::Branch(..),
            )),
            applied ==> *final(self) == replace_at(
                *old(self),
                path@.subrange(i as int, path@.len() as int),
                Quad::Leaf(leaf),
            ),
            !applied ==> *final(self) == *old(self),
        decreases path@.len() - i,
    {
        let ghost rest = path@.subrange(i as int, path@.len() as int);
        if i == path.len() {
            match self {
                Quad::Leaf(_) => false,
                Quad::Branch(..) => {
                    *self = Quad::Leaf(leaf);
                    true
                },
            }
        } else {
            proof {
                assert(rest.drop_first() =~= path@.subrange(i + 1, path@.len() as int));
            }
            match self {
                Quad::Leaf(_) => false,
                Quad::Branch(ul, ur, dl, dr, _) => {
                    match path[i] {
                        Quadrant::UL => ul.collapse_at(path, i + 1, leaf),
                        Quadrant::UR => ur.collapse_at(path, i + 1, leaf),
                        Quadrant::DL => dl.collapse_at(path, i + 1, leaf),
                        Quadrant::DR => dr.collapse_at(path, i + 1, leaf),
                    }
                },
            }
        }
    }

    /// Appends to `out` the mesh of every leaf of this subtree, depth
    /// first.
    pub fn collect_meshes<'a>(&'a self, out: &mut Vec<&'a M>)
        ensures
            derefs(final(out)@) == derefs(old(out)@) + meshes(*self),
        decreases self,
    {
        match self {
            Quad::Leaf(info) => {
                out.push(&info.mesh);
                assert(derefs(out@) =~= derefs(old(out)@) + meshes(*self));
            },
            Quad::Branch(ul, ur, dl, dr, _) => {
                ul.collect_meshes(out);
                ur.collect_meshes(out);
                dl.collect_meshes(out);
                dr.collect_meshes(out);
                assert(derefs(out@) =~= derefs(old(out)@) + meshes(*self));
            },
        }
    }
}

/// The transitions of one pass over the first `n` roots, in root order.
pub open spec fn plan_roots<M>(roots: Seq<Quad<M>>, viewer: Point, n: nat) -> Seq<
    (TransitionKind, (Facing, Seq<Quadrant>)),
>
    decreases n,
{
    if n == 0 {
        seq![]
    } else {
        plan_roots(roots, viewer, (n - 1) as nat) + plan(
            roots[n - 1],
            facing_order()[n - 1],
            Seq::empty(),
            viewer,
        )
    }
}

/// The leaf meshes of the first `n` roots, in root order.
pub open spec fn meshes_roots<M>(roots: Seq<Quad<M>>, n: nat) -> Seq<M>
    decreases n,
{
    if n == 0 {
        seq![]
    } else {
        meshes_roots(roots, (n - 1) as nat) + meshes(roots[n - 1])
    }
}

/// Position of a facing in root order.
pub open spec fn facing_index(f: Facing) -> int {
    match f {
        Facing::North => 0,
        Facing::South => 1,
        Facing::East => 2,
        Facing::West => 3,
        Facing::Up => 4,
        Facing::Down => 5,
    }
}

fn index_of(f: Facing) -> (r: usize)
    ensures
        r == facing_index(f),
        facing_order()[r as int] == f,
{
    match f {
        Facing::North => 0,
        Facing::South => 1,
        Facing::East => 2,
        Facing::West => 3,
        Facing::Up => 4,
        Facing::Down => 5,
    }
}

proof fn lemma_node_wf<M>(q: Quad<M>, path: Seq<Quadrant>, depth: nat)
    requires
        quad_wf(q, depth),
        node_at(q, path) is Some,
    ensures
        quad_wf(node_at(q, path)->0, depth + path.len()),
    decreases path.len(),
{
    if path.len() > 0 {
        lemma_node_wf(child(q, path[0]), path.drop_first(), depth + 1);
    }
}

proof fn lemma_replace_wf<M>(q: Quad<M>, path: Seq<Quadrant>, n: Quad<M>, depth: nat)
    requires
        quad_wf(q, depth),
        node_at(q, path) is Some,
        quad_wf(n, depth + path.len()),
    ensures
        quad_wf(replace_at(q, path, n), depth),
    decreases path.len(),
{
    if path.len() > 0 {
        lemma_replace_wf(child(q, path[0]), path.drop_first(), n, depth + 1);
    }
}

/// Whether the transition `t` names a node of the tree with roots `roots`
/// that it applies to.
pub open spec fn applies_to<M>(roots: Seq<Quad<M>>, t: (TransitionKind, (Facing, Seq<Quadrant>))) -> bool {
    target_ok(roots[facing_index(t.1.0)], t.1.0, Seq::empty(), t)
}

/// The level-of-detail tree of a planet: one quadtree per cube face, each
/// rooted at the face's whole square.  `M` is the caller's mesh handle.
pub struct Tree<M> {
    roots: Vec<Quad<M>>,
}

impl<M> Tree<M> {
    /// The six roots, in the order of `facing_order()`.
    pub closed spec fn roots(&self) -> Seq<Quad<M>> {
        self.roots@
    }

    /// Six roots, and no leaf below the deepest level.
    pub open spec fn wf(&self) -> bool {
        &&& self.roots().len() == 6
        &&& forall|i: int| 0 <= i < 6 ==> quad_wf(#[trigger] self.roots()[i], 0)
    }

    /// A tree of six root leaves, one per facing in root order, each
    /// covering its whole face.
    pub fn new(leaves: Vec<QuadInfo<M>>) -> (r: Tree<M>)
        requires
            leaves@.len() == 6,
        ensures
            r.wf(),
            forall|i: int| 0 <= i < 6 ==> #[trigger] r.roots()[i] == Quad::Leaf(leaves@[i]),
    {
        let mut leaves = leaves;
        let mut roots: Vec<Quad<M>> = Vec::new();
        let ghost all = leaves@;
        while leaves.len() > 0
            invariant
                leaves@.len() + roots@.len() == 6,
                all.len() == 6,
                leaves@ == all.subrange(roots@.len() as int, 6),
                forall|i: int| 0 <= i < roots@.len() ==> #[trigger] roots@[i] == Quad::Leaf(all[i]),
            decreases leaves@.len(),
        {
            let info = leaves.remove(0);
            roots.push(Quad::Leaf(info));
        }
        let r = Tree { roots };
        assert forall|i: int| 0 <= i < 6 implies #[trigger] r.roots()[i] == Quad::Leaf(all[i]) by {}
        assert forall|i: int| 0 <= i < 6 implies quad_wf(#[trigger] r.roots()[i], 0) by {}
        r
    }

    /// The transitions that this frame needs for a viewer at `viewer`:
    /// each root in order, each subtree depth first.  Each names a node of
    /// the tree that it applies to, above the deepest level.
    pub fn process(&self, viewer: Point) -> (r: Vec<Transition>)
        requires
            self.wf(),
        ensures
            views(r@) == plan_roots(self.roots(), viewer, 6),
            forall|k: int| 0 <= k < r@.len() ==> applies_to(self.roots(), #[trigger] r@[k]@),
    {
        let mut out: Vec<Transition> = Vec::new();
        let mut i: usize = 0;
        while i < 6
            invariant
                i <= 6,
                self.wf(),
                views(out@) == plan_roots(self.roots(), viewer, i as nat),
                forall|k: int| 0 <= k < out@.len() ==> applies_to(self.roots(), #[trigger] out@[k]@),
            decreases 6 - i,
        {
            let facing = Facing::all()[i];
            let ghost before = out@;
            self.roots[i].process(viewer, &Patch::root(facing), &mut out);
            proof {
                let p = plan(self.roots()[i as int], facing, Seq::empty(), viewer);
                lemma_plan_targets(self.roots()[i as int], facing, Seq::empty(), viewer);
                assert(facing == facing_order()[i as int]);
                assert(facing_index(facing) == i);
                assert(views(out@) == views(before) + p);
                assert(views(before).len() == before.len());
                assert(views(out@).len() == out@.len());
                assert forall|k: int| 0 <= k < out@.len() implies applies_to(
                    self.roots(),
                    #[trigger] out@[k]@,
                ) by {
                    if k < before.len() {
                        assert(out@[k]@ == views(out@)[k]);
                        assert(before[k]@ == views(before)[k]);
                        assert(views(out@)[k] == views(before)[k]);
                    } else {
                        assert(out@[k]@ == views(out@)[k]);
                        assert(views(out@)[k] == p[k - before.len()]);
                        assert(target_ok(self.roots()[i as int], facing, Seq::empty(), p[k - before.len()]));
                    }
                }
            }
            i += 1;
        }
        out
    }

    /// Appends the mesh of every leaf to `meshes`: roots in order, each
    /// subtree depth first.
    pub fn collect_meshes<'a>(&'a self, meshes: &mut Vec<&'a M>)
        requires
            self.wf(),
        ensures
            derefs(final(meshes)@) == derefs(old(meshes)@) + meshes_roots(self.roots(), 6),
    {
        let mut i: usize = 0;
        while i < 6
            invariant
                i <= 6,
                self.wf(),
                derefs(meshes@) == derefs(old(meshes)@) + meshes_roots(self.roots(), i as nat),
            decreases 6 - i,
        {
            self.roots[i].collect_meshes(meshes);
            assert(derefs(meshes@) =~= derefs(old(meshes)@) + meshes_roots(
                self.roots(),
                (i + 1) as nat,
            ));
            i += 1;
        }
    }

    /// Replaces the leaf at `patch` with a branch over `children` (upper
    /// left, upper right, lower left, lower right), which keeps the leaf's
    /// sampler.  Where `patch` is no leaf of the tree, or lies at the
    /// deepest level, nothing changes and the answer is `false`.
    pub fn subdivide(&mut self, patch: &Patch, children: Vec<QuadInfo<M>>) -> (applied: bool)
        requires
            old(self).wf(),
            children@.len() == 4,
        ensures
            final(self).wf(),
            applied == (patch.path@.len() < MAX_LEVEL && node_at(
                old(self).roots()[facing_index(patch.facing)],
                patch.path@,
            ) matches Some(Quad::Leaf(_))),
            applied ==> final(self).roots() == old(self).roots().update(
                facing_index(patch.facing),
                replace_at(
                    old(self).roots()[facing_index(patch.facing)],
                    patch.path@,
                    branch_of(
                        children@,
                        leaf_sampler(
                            node_at(old(self).roots()[facing_index(patch.facing)], patch.path@)->0,
                        ),
                    ),
                ),
            ),
            !applied ==> final(self).roots() == old(self).roots(),
    {
        if patch.path.len() >= MAX_LEVEL {
            return false;
        }
        let k = index_of(patch.facing);
        let ghost root = self.roots@[k as int];
        proof {
            assert(patch.path@.subrange(0, patch.path@.len() as int) =~= patch.path@);
        }
        let applied = self.roots[k].subdivide_at(&patch.path, 0, children);
        proof {
            if applied {
                let n = node_at(root, patch.path@)->0;
                assert(quad_wf(branch_of(children@, leaf_sampler(n)), patch.path@.len())) by {
                    reveal_with_fuel(quad_wf, 2);
                }
                lemma_replace_wf(root, patch.path@, branch_of(children@, leaf_sampler(n)), 0);
                assert(self.roots@ =~= old(self).roots@.update(
                    k as int,
                    replace_at(root, patch.path@, branch_of(children@, leaf_sampler(n))),
                ));
            } else {
                assert(self.roots@ =~= old(self).roots@);
            }
            assert forall|i: int| 0 <= i < 6 implies quad_wf(#[trigger] self.roots()[i], 0) by {}
        }
        applied
    }

    /// Replaces the branch at `patch` with the leaf `leaf`, dropping the
    /// whole subtree.  Where `patch` is no branch of the tree, nothing
    /// changes and the answer is `false`.
    pub fn collapse(&mut self, patch: &Patch, leaf: QuadInfo<M>) -> (applied: bool)
        requires
            old(self).wf(),
        ensures
            final(self).wf(),
            applied == (node_at(old(self).roots()[facing_index(patch.facing)], patch.path@) matches Some(
                Quad::Branch(..),
            )),
            applied ==> final(self).roots() == old(self).roots().update(
                facing_index(patch.facing),
                replace_at(
                    old(self).roots()[facing_index(patch.facing)],
                    patch.path@,
                    Quad::Leaf(leaf),
                ),
            ),
            !applied ==> final(self).roots() == old(self).roots(),
    {
        let k = index_of(patch.facing);
        let ghost root = self.roots@[k as int];
        proof {
            assert(patch.path@.subrange(0, patch.path@.len() as int) =~= patch.path@);
        }
        let ghost leaf_copy = leaf;
        let applied = self.roots[k].collapse_at(&patch.path, 0, leaf);
        proof {
            if applied {
                lemma_node_wf(root, patch.path@, 0);
                lemma_replace_wf(root, patch.path@, Quad::Leaf(leaf_copy), 0);
                assert(self.roots@ =~= old(self).roots@.update(
                    k as int,
                    replace_at(root, patch.path@, Quad::Leaf(leaf_copy)),
                ));
            } else {
                assert(self.roots@ =~= old(self).roots@);
            }
            assert forall|i: int| 0 <= i < 6 implies quad_wf(#[trigger] self.roots()[i], 0) by {}
        }
        applied
    }
}

/// Whether the transition `t`, asked for by a pass over `q` standing at
/// `(f, path)`, names a node of `q` that it can be applied to: a leaf above
/// the deepest level for a subdivision, a branch for a collapse.
pub open spec fn target_ok<M>(
    q: Quad<M>,
    f: Facing,
    path: Seq<Quadrant>,
    t: (TransitionKind, (Facing, Seq<Quadrant>)),
) -> bool {
    let p = t.1.1;
    &&& t.1.0 == f
    &&& p.len() < MAX_LEVEL
    &&& path.len() <= p.len()
    &&& p.subrange(0, path.len() as int) == path
    &&& match t.0 {
        TransitionKind::Subdivide => node_at(q, p.subrange(path.len() as int, p.len() as int)) matches Some(
            Quad::Leaf(_),
        ),
        TransitionKind::Collapse => node_at(q, p.subrange(path.len() as int, p.len() as int)) matches Some(
            Quad::Branch(..),
        ),
    }
}

proof fn lemma_target_lift<M>(
    q: Quad<M>,
    d: Quadrant,
    f: Facing,
    path: Seq<Quadrant>,
    t: (TransitionKind, (Facing, Seq<Quadrant>)),
)
    requires
        q is Branch,
        target_ok(child(q, d), f, path.push(d), t),
    ensures
        target_ok(q, f, path, t),
{
    let p = t.1.1;
    let l = path.len() as int;
    assert(p.subrange(0, l) =~= p.subrange(0, l + 1).drop_last());
    assert(path.push(d).drop_last() =~= path);
    let rest = p.subrange(l, p.len() as int);
    assert(rest[0] == path.push(d)[l]);
    assert(rest.drop_first() =~= p.subrange(l + 1, p.len() as int));
}

proof fn lemma_plan_targets<M>(q: Quad<M>, f: Facing, path: Seq<Quadrant>, viewer: Point)
    requires
        quad_wf(q, path.len()),
    ensures
        forall|k: int|
            0 <= k < plan(q, f, path, viewer).len() ==> target_ok(
                q,
                f,
                path,
                #[trigger] plan(q, f, path, viewer)[k],
            ),
    decreases q,
{
    match q {
        Quad::Leaf(_) => {
            assert(path.subrange(0, path.len() as int) =~= path);
            assert(path.subrange(path.len() as int, path.len() as int) =~= Seq::<Quadrant>::empty());
        },
        Quad::Branch(a, b, c, d, s) => {
            assert(path.subrange(0, path.len() as int) =~= path);
            assert(path.subrange(path.len() as int, path.len() as int) =~= Seq::<Quadrant>::empty());
            if !collapse_due(min_dist2(s.points(), viewer), path.len()) {
                let pa = plan(*a, f, path.push(Quadrant::UL), viewer);
                let pb = plan(*b, f, path.push(Quadrant::UR), viewer);
                let pc = plan(*c, f, path.push(Quadrant::DL), viewer);
                let pd = plan(*d, f, path.push(Quadrant::DR), viewer);
                lemma_plan_targets(*a, f, path.push(Quadrant::UL), viewer);
                lemma_plan_targets(*b, f, path.push(Quadrant::UR), viewer);
                lemma_plan_targets(*c, f, path.push(Quadrant::DL), viewer);
                lemma_plan_targets(*d, f, path.push(Quadrant::DR), viewer);
                let all = plan(q, f, path, viewer);
                assert(all == pa + pb + pc + pd);
                assert forall|k: int| 0 <= k < all.len() implies target_ok(
                    q,
                    f,
                    path,
                    #[trigger] all[k],
                ) by {
                    if k < pa.len() {
                        assert(all[k] == pa[k]);
                        lemma_target_lift(q, Quadrant::UL, f, path, pa[k]);
                    } else if k < pa.len() + pb.len() {
                        assert(all[k] == pb[k - pa.len()]);
                        lemma_target_lift(q, Quadrant::UR, f, path, pb[k - pa.len()]);
                    } else if k < pa.len() + pb.len() + pc.len() {
                        assert(all[k] == pc[k - pa.len() - pb.len()]);
                        lemma_target_lift(q, Quadrant::DL, f, path, pc[k - pa.len() - pb.len()]);
                    } else {
                        assert(all[k] == pd[k - pa.len() - pb.len() - pc.len()]);
                        lemma_target_lift(
                            q,
                            Quadrant::DR,
                            f,
                            path,
                            pd[k - pa.len() - pb.len() - pc.len()],
                        );
                    }
                }
            }
        },
    }
}

/// A leaf whose sampler's distance to the viewer lies in the band between
/// the two thresholds of its level asks for no transition; so repeated
/// passes at that distance leave it as it is.
pub proof fn lemma_leaf_stable_in_band<M>(
    info: QuadInfo<M>,
    f: Facing,
    path: Seq<Quadrant>,
    viewer: Point,
)
    requires
        SUBDIVIDE_LIMIT <= min_dist2(info.sampler.points(), viewer) * pow4(path.len())
            <= COLLAPSE_LIMIT,
    ensures
        plan(Quad::Leaf(info), f, path, viewer) == Seq::<
            (TransitionKind, (Facing, Seq<Quadrant>)),
        >::empty(),
{
    lemma_hysteresis_band(min_dist2(info.sampler.points(), viewer), path.len());
}

/// A branch whose sampler's distance to the viewer lies in the band between
/// the two thresholds of its level does not collapse: a pass only visits
/// its children.
pub proof fn lemma_branch_stable_in_band<M>(q: Quad<M>, f: Facing, path: Seq<Quadrant>, viewer: Point)
    requires
        q is Branch,
        SUBDIVIDE_LIMIT <= min_dist2(leaf_sampler(q).points(), viewer) * pow4(path.len())
            <= COLLAPSE_LIMIT,
    ensures
        plan(q, f, path, viewer) == plan(child(q, Quadrant::UL), f, path.push(Quadrant::UL), viewer)
            + plan(child(q, Quadrant::UR), f, path.push(Quadrant::UR), viewer) + plan(
            child(q, Quadrant::DL),
            f,
            path.push(Quadrant::DL),
            viewer,
        ) + plan(child(q, Quadrant::DR), f, path.push(Quadrant::DR), viewer),
{
    lemma_hysteresis_band(min_dist2(leaf_sampler(q).points(), viewer), path.len());
}

/// Subdividing a leaf and then collapsing the branch that took its place
/// leaves a single leaf at the very same patch, with the rest of the tree
/// as it was: the branch stands where the leaf stood, so the collapse
/// applies to it, and it names the same path.
pub proof fn lemma_subdivide_collapse_round_trip<M>(
    q: Quad<M>,
    path: Seq<Quadrant>,
    kids: Seq<QuadInfo<M>>,
    s: PointSampler,
    leaf: QuadInfo<M>,
)
    requires
        node_at(q, path) matches Some(Quad::Leaf(_)),
        kids.len() == 4,
    ensures
        node_at(replace_at(q, path, branch_of(kids, s)), path) == Some(branch_of(kids, s)),
        replace_at(replace_at(q, path, branch_of(kids, s)), path, Quad::Leaf(leaf)) == replace_at(
            q,
            path,
            Quad::Leaf(leaf),
        ),
    decreases path.len(),
{
    if path.len() > 0 {
        lemma_subdivide_collapse_round_trip(child(q, path[0]), path.drop_first(), kids, s, leaf);
    }
}

/// On a whole tree: `Tree::subdivide` at a leaf's patch followed by
/// `Tree::collapse` at the same patch gives the roots that replacing that
/// leaf by the new leaf gives.
pub proof fn lemma_tree_round_trip<M>(
    roots: Seq<Quad<M>>,
    f: Facing,
    path: Seq<Quadrant>,
    kids: Seq<QuadInfo<M>>,
    s: PointSampler,
    leaf: QuadInfo<M>,
)
    requires
        roots.len() == 6,
        node_at(roots[facing_index(f)], path) matches Some(Quad::Leaf(_)),
        kids.len() == 4,
    ensures
        ({
            let i = facing_index(f);
            let split = roots.update(i, replace_at(roots[i], path, branch_of(kids, s)));
            &&& node_at(split[i], path) matches Some(Quad::Branch(..))
            &&& split.update(i, replace_at(split[i], path, Quad::Leaf(leaf))) == roots.update(
                i,
                replace_at(roots[i], path, Quad::Leaf(leaf)),
            )
        }),
{
    let i = facing_index(f);
    lemma_subdivide_collapse_round_trip(roots[i], path, kids, s, leaf);
    let split = roots.update(i, replace_at(roots[i], path, branch_of(kids, s)));
    assert(split.update(i, replace_at(split[i], path, Quad::Leaf(leaf))) =~= roots.update(
        i,
        replace_at(roots[i], path, Quad::Leaf(leaf)),
    ));
}

/// A pass at the collapse distance of a freshly subdivided patch asks to
/// collapse exactly that patch.
pub proof fn lemma_collapse_names_subdivided_patch<M>(
    kids: Seq<QuadInfo<M>>,
    s: PointSampler,
    f: Facing,
    path: Seq<Quadrant>,
    viewer: Point,
)
    requires
        kids.len() == 4,
        collapse_due(min_dist2(s.points(), viewer), path.len()),
    ensures
        plan(branch_of(kids, s), f, path, viewer) == seq![(TransitionKind::Collapse, (f, path))],
{
}

} // verus!
