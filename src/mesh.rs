//! The mesh accumulator: co-indexed positions and normals, and a list of
//! triangles given as triples of vertex indices.

use vstd::prelude::*;

verus! {

/// One of the six axis directions, used as a flat face's normal.
#[derive(Clone, Copy, Debug, PartialEq, Eq, Structural)]
pub enum Direction {
    XNeg,
    XPos,
    YNeg,
    YPos,
    ZNeg,
    ZPos,
}

impl Direction {
    /// The direction as a unit vector of integers.
    pub open spec fn unit(self) -> (int, int, int) {
        match self {
            Direction::XNeg => (-1, 0, 0),
            Direction::XPos => (1, 0, 0),
            Direction::YNeg => (0, -1, 0),
            Direction::YPos => (0, 1, 0),
            Direction::ZNeg => (0, 0, -1),
            Direction::ZPos => (0, 0, 1),
        }
    }
}

/// What a mesh buffer holds, as mathematical sequences.
pub struct MeshModel<P, N> {
    pub vertices: Seq<P>,
    pub normals: Seq<N>,
    pub indices: Seq<int>,
}

impl<P, N> MeshModel<P, N> {
    /// The buffer with no vertex and no triangle.
    pub open spec fn empty() -> Self {
        MeshModel { vertices: Seq::empty(), normals: Seq::empty(), indices: Seq::empty() }
    }

    /// Number of whole triangles.
    pub open spec fn triangle_count(self) -> int {
        self.indices.len() as int / 3
    }

    /// The three vertex indices of triangle `t`.
    pub open spec fn triangle(self, t: int) -> (int, int, int) {
        (self.indices[3 * t], self.indices[3 * t + 1], self.indices[3 * t + 2])
    }

    /// Positions and normals are co-indexed, the index list is made of
    /// whole triangles, every index names a vertex, and every vertex can be
    /// named by a `u32` index.
    pub open spec fn wf(self) -> bool {
        &&& self.vertices.len() == self.normals.len()
        &&& self.indices.len() % 3 == 0
        &&& forall|k: int|
            0 <= k < self.indices.len() ==> 0 <= #[trigger] self.indices[k] < self.vertices.len()
        &&& self.vertices.len() <= u32::MAX
    }

    /// No triangle names the same vertex twice.
    pub open spec fn nondegenerate(self) -> bool {
        forall|t: int|
            0 <= t < self.triangle_count() ==> {
                let (a, b, c) = #[trigger] self.triangle(t);
                a != b && b != c && a != c
            }
    }

    /// The positions of the three corners of triangle `t`.
    #[verifier::opaque]
    pub open spec fn corners(self, t: int) -> (P, P, P) {
        let (a, b, c) = self.triangle(t);
        (self.vertices[a], self.vertices[b], self.vertices[c])
    }

    /// Some triangle runs from position `p` to position `q` along one of
    /// its edges.
    pub open spec fn has_edge(self, p: P, q: P) -> bool {
        exists|t: int| 0 <= t < self.triangle_count() && #[trigger] runs(self.corners(t), p, q)
    }

    /// Every edge of every triangle is run the other way by some triangle:
    /// the surface has no border, and neighbouring triangles agree on which
    /// side is outside.
    pub open spec fn closed(self) -> bool {
        forall|t: int|
            0 <= t < self.triangle_count() ==> {
                let (a, b, c) = #[trigger] self.corners(t);
                self.has_edge(b, a) && self.has_edge(c, b) && self.has_edge(a, c)
            }
    }

    /// Each directed edge is run by at most one triangle, and by that
    /// triangle at most once.
    pub open spec fn edges_unique(self) -> bool {
        forall|t1: int, t2: int, p: P, q: P|
            0 <= t1 < self.triangle_count() && 0 <= t2 < self.triangle_count() && #[trigger] runs(
                self.corners(t1),
                p,
                q,
            ) && #[trigger] runs(self.corners(t2), p, q) ==> t1 == t2 && once(self.corners(t1), p, q)
    }

    /// `self` followed by `other`: the vertices and normals of `other` are
    /// appended as they are, and its indices are shifted by the number of
    /// vertices `self` had.
    pub open spec fn merged(self, other: Self) -> Self {
        MeshModel {
            vertices: self.vertices + other.vertices,
            normals: self.normals + other.normals,
            indices: self.indices + other.indices.map_values(
                |i: int| i + self.vertices.len(),
            ),
        }
    }

    /// `self` with every position `p` replaced by `g(p)`.
    pub open spec fn with_positions(self, g: spec_fn(P) -> P) -> Self {
        MeshModel { vertices: self.vertices.map_values(g), normals: self.normals, indices: self.indices }
    }

    /// `self` is `before` with every position replaced by one that `step`
    /// relates it to; normals and triangles are unchanged.
    pub open spec fn moved(self, before: Self, step: spec_fn(P, P) -> bool) -> bool {
        &&& self.normals == before.normals
        &&& self.indices == before.indices
        &&& self.vertices.len() == before.vertices.len()
        &&& forall|i: int|
            0 <= i < self.vertices.len() ==> #[trigger] step(before.vertices[i], self.vertices[i])
    }
}

/// The triangle with corners `tri` runs from `p` to `q` along one of its
/// edges, in the order of its corners.
pub open spec fn runs<P>(tri: (P, P, P), p: P, q: P) -> bool {
    let (a, b, c) = tri;
    (a == p && b == q) || (b == p && c == q) || (c == p && a == q)
}

/// The triangle with corners `tri` runs from `p` to `q` along exactly one
/// of its edges.
pub open spec fn once<P>(tri: (P, P, P), p: P, q: P) -> bool {
    let (a, b, c) = tri;
    let e0 = a == p && b == q;
    let e1 = b == p && c == q;
    let e2 = c == p && a == q;
    (e0 && !e1 && !e2) || (!e0 && e1 && !e2) || (!e0 && !e1 && e2)
}

/// Edges are unique when each triangle has three distinct corners and some
/// function of an edge's two ends names the triangle that runs it.
pub proof fn lemma_edges_unique_by_owner<P, N>(m: MeshModel<P, N>, owner: spec_fn(P, P) -> int)
    requires
        forall|t: int|
            0 <= t < m.triangle_count() ==> {
                let (x, y, z) = #[trigger] m.corners(t);
                &&& x != y && y != z && x != z
                &&& owner(x, y) == t && owner(y, z) == t && owner(z, x) == t
            },
    ensures
        m.edges_unique(),
{
    assert forall|t1: int, t2: int, p: P, q: P|
        0 <= t1 < m.triangle_count() && 0 <= t2 < m.triangle_count() && #[trigger] runs(
            m.corners(t1),
            p,
            q,
        ) && #[trigger] runs(m.corners(t2), p, q) implies t1 == t2 && once(m.corners(t1), p, q) by {
        assert(owner(p, q) == t1);
        assert(owner(p, q) == t2);
    }
}

/// A triangle whose corners run from `p` to `q` witnesses that edge.
pub proof fn lemma_has_edge<P, N>(m: MeshModel<P, N>, t: int, p: P, q: P)
    requires
        0 <= t < m.triangle_count(),
        runs(m.corners(t), p, q),
    ensures
        m.has_edge(p, q),
{
}

/// The corners of a merge's triangles are those of the operands'
/// triangles.
pub proof fn lemma_merged_corners<P, N>(a: MeshModel<P, N>, b: MeshModel<P, N>)
    requires
        a.wf(),
        b.wf(),
    ensures
        forall|t: int|
            0 <= t < a.triangle_count() ==> #[trigger] a.merged(b).corners(t) == a.corners(t),
        forall|t: int|
            0 <= t < b.triangle_count() ==> #[trigger] a.merged(b).corners(a.triangle_count() + t)
                == b.corners(t),
{
    let m = a.merged(b);
    let n = a.vertices.len();
    reveal(MeshModel::corners);
    lemma_merged_triangles(a, b);
    assert forall|t: int| 0 <= t < a.triangle_count() implies #[trigger] m.corners(t)
        == a.corners(t) by {
        assert(m.triangle(t) == a.triangle(t));
        let (x, y, z) = a.triangle(t);
        assert(0 <= 3 * t && 3 * t + 2 < a.indices.len());
        assert(a.indices[3 * t] == x && a.indices[3 * t + 1] == y && a.indices[3 * t + 2] == z);
    }
    assert forall|t: int| 0 <= t < b.triangle_count() implies #[trigger] m.corners(
        a.triangle_count() + t,
    ) == b.corners(t) by {
        let (x, y, z) = b.triangle(t);
        assert(m.triangle(a.triangle_count() + t) == (x + n, y + n, z + n));
        assert(0 <= 3 * t && 3 * t + 2 < b.indices.len());
        assert(b.indices[3 * t] == x && b.indices[3 * t + 1] == y && b.indices[3 * t + 2] == z);
    }
}

/// An edge of either operand is an edge of the merge.
pub proof fn lemma_merged_has_edge<P, N>(a: MeshModel<P, N>, b: MeshModel<P, N>)
    requires
        a.wf(),
        b.wf(),
    ensures
        forall|p: P, q: P| #[trigger] a.has_edge(p, q) ==> a.merged(b).has_edge(p, q),
        forall|p: P, q: P| #[trigger] b.has_edge(p, q) ==> a.merged(b).has_edge(p, q),
{
    let m = a.merged(b);
    lemma_merged_corners(a, b);
    lemma_merged_triangles(a, b);
    assert forall|p: P, q: P| #[trigger] a.has_edge(p, q) implies m.has_edge(p, q) by {
        let t = choose|t: int| 0 <= t < a.triangle_count() && #[trigger] runs(a.corners(t), p, q);
        assert(m.corners(t) == a.corners(t));
        lemma_has_edge(m, t, p, q);
    }
    assert forall|p: P, q: P| #[trigger] b.has_edge(p, q) implies m.has_edge(p, q) by {
        let t = choose|t: int| 0 <= t < b.triangle_count() && #[trigger] runs(b.corners(t), p, q);
        assert(m.corners(a.triangle_count() + t) == b.corners(t));
        lemma_has_edge(m, a.triangle_count() + t, p, q);
    }
}

/// The product of two numbers taken among -1, 0 and 1 (the differences of
/// unit-box coordinates), written by cases.
pub open spec fn unit_product(a: int, b: int) -> int {
    if a == 0 || b == 0 {
        0
    } else if a == b {
        1
    } else {
        -1
    }
}

/// Cross product of `b - a` and `c - a` for points of the unit box: it
/// points to the side from which `a b c` turns counter-clockwise.
pub open spec fn turn(a: (int, int, int), b: (int, int, int), c: (int, int, int)) -> (int, int, int) {
    let (ux, uy, uz) = (b.0 - a.0, b.1 - a.1, b.2 - a.2);
    let (vx, vy, vz) = (c.0 - a.0, c.1 - a.1, c.2 - a.2);
    (
        unit_product(uy, vz) - unit_product(uz, vy),
        unit_product(uz, vx) - unit_product(ux, vz),
        unit_product(ux, vy) - unit_product(uy, vx),
    )
}

/// Renaming positions keeps the triangles and renames their corners.
pub proof fn lemma_with_positions<P, N>(m: MeshModel<P, N>, g: spec_fn(P) -> P)
    requires
        m.wf(),
    ensures
        m.with_positions(g).wf(),
        m.with_positions(g).triangle_count() == m.triangle_count(),
        forall|t: int|
            0 <= t < m.triangle_count() ==> #[trigger] m.with_positions(g).corners(t) == {
                let (x, y, z) = m.corners(t);
                (g(x), g(y), g(z))
            },
{
    reveal(MeshModel::corners);
    let w = m.with_positions(g);
    assert forall|t: int| 0 <= t < m.triangle_count() implies #[trigger] w.corners(t) == {
        let (x, y, z) = m.corners(t);
        (g(x), g(y), g(z))
    } by {
        assert(0 <= 3 * t && 3 * t + 2 < m.indices.len());
    }
}

/// Renaming positions commutes with merging.
pub proof fn lemma_with_positions_merged<P, N>(
    a: MeshModel<P, N>,
    b: MeshModel<P, N>,
    g: spec_fn(P) -> P,
)
    ensures
        a.merged(b).with_positions(g) == a.with_positions(g).merged(b.with_positions(g)),
{
    let l = a.merged(b).with_positions(g);
    let r = a.with_positions(g).merged(b.with_positions(g));
    assert(l.vertices =~= r.vertices);
    assert(l.indices =~= r.indices);
}

/// A flat quad: four corners listed counter-clockwise as seen from the
/// outer side, one normal for all four, and the two triangles `0 1 2` and
/// `2 3 0`.
pub open spec fn quad<P, N>(corners: Seq<P>, normal: N) -> MeshModel<P, N> {
    MeshModel {
        vertices: corners,
        normals: Seq::new(4, |j: int| normal),
        indices: seq![0, 1, 2, 2, 3, 0],
    }
}

/// A quad built from four corners is a well-formed buffer with two proper
/// triangles.
pub proof fn lemma_quad<P, N>(corners: Seq<P>, normal: N)
    requires
        corners.len() == 4,
    ensures
        quad(corners, normal).wf(),
        quad(corners, normal).nondegenerate(),
        quad(corners, normal).triangle_count() == 2,
        quad(corners, normal).triangle(0) == (0int, 1int, 2int),
        quad(corners, normal).triangle(1) == (2int, 3int, 0int),
{
    let q = quad(corners, normal);
    assert(q.triangle(0) == (0int, 1int, 2int));
    assert(q.triangle(1) == (2int, 3int, 0int));
}

/// Merging keeps a buffer well formed, as long as the vertex count stays
/// addressable by `u32` indices.
pub proof fn lemma_merged_wf<P, N>(a: MeshModel<P, N>, b: MeshModel<P, N>)
    requires
        a.wf(),
        b.wf(),
        a.vertices.len() + b.vertices.len() <= u32::MAX,
    ensures
        a.merged(b).wf(),
        a.merged(b).vertices.len() == a.vertices.len() + b.vertices.len(),
        a.merged(b).indices.len() == a.indices.len() + b.indices.len(),
{
    let m = a.merged(b);
    assert forall|k: int| 0 <= k < m.indices.len() implies 0 <= #[trigger] m.indices[k]
        < m.vertices.len() by {
        if k >= a.indices.len() {
            assert(m.indices[k] == b.indices[k - a.indices.len()] + a.vertices.len());
        }
    }
}

/// The triangles of a merge are those of the first operand, then those of
/// the second shifted by the first one's vertex count.
pub proof fn lemma_merged_triangles<P, N>(a: MeshModel<P, N>, b: MeshModel<P, N>)
    requires
        a.indices.len() % 3 == 0,
        b.indices.len() % 3 == 0,
    ensures
        a.merged(b).triangle_count() == a.triangle_count() + b.triangle_count(),
        forall|t: int|
            0 <= t < a.triangle_count() ==> #[trigger] a.merged(b).triangle(t) == a.triangle(t),
        forall|t: int|
            0 <= t < b.triangle_count() ==> {
                let (x, y, z) = #[trigger] b.triangle(t);
                let n = a.vertices.len();
                a.merged(b).triangle(a.triangle_count() + t) == (x + n, y + n, z + n)
            },
{
    let m = a.merged(b);
    assert forall|t: int| 0 <= t < b.triangle_count() implies {
        let (x, y, z) = #[trigger] b.triangle(t);
        let n = a.vertices.len();
        m.triangle(a.triangle_count() + t) == (x + n, y + n, z + n)
    } by {
        assert(3 * (a.triangle_count() + t) == a.indices.len() + 3 * t);
    }
}

/// Merging keeps every triangle free of repeated vertices.
pub proof fn lemma_merged_nondegenerate<P, N>(a: MeshModel<P, N>, b: MeshModel<P, N>)
    requires
        a.indices.len() % 3 == 0,
        b.indices.len() % 3 == 0,
        a.nondegenerate(),
        b.nondegenerate(),
    ensures
        a.merged(b).nondegenerate(),
{
    lemma_merged_triangles(a, b);
    let m = a.merged(b);
    assert forall|t: int| 0 <= t < m.triangle_count() implies {
        let (x, y, z) = #[trigger] m.triangle(t);
        x != y && y != z && x != z
    } by {
        if t >= a.triangle_count() {
            let u = t - a.triangle_count();
            assert(b.triangle(u) == b.triangle(u));
        }
    }
}

/// Merging is associative: merging `a` with `b` and the result with `c`
/// gives the same buffer as merging `a` with the merge of `b` and `c`.
pub proof fn lemma_merge_associative<P, N>(
    a: MeshModel<P, N>,
    b: MeshModel<P, N>,
    c: MeshModel<P, N>,
)
    ensures
        a.merged(b).merged(c) == a.merged(b.merged(c)),
{
    let l = a.merged(b).merged(c);
    let r = a.merged(b.merged(c));
    assert(l.vertices =~= r.vertices);
    assert(l.normals =~= r.normals);
    assert(l.indices =~= r.indices);
}

/// Translation distributes over merging: for a step that relates each
/// position to a single new one, moving a merged buffer gives the merge
/// of the two operands moved one by one.
pub proof fn lemma_translate_distributes<P, N>(
    a: MeshModel<P, N>,
    b: MeshModel<P, N>,
    moved_a: MeshModel<P, N>,
    moved_b: MeshModel<P, N>,
    moved_both: MeshModel<P, N>,
    step: spec_fn(P, P) -> bool,
)
    requires
        forall|p: P, q1: P, q2: P| #[trigger] step(p, q1) && #[trigger] step(p, q2) ==> q1 == q2,
        moved_a.moved(a, step),
        moved_b.moved(b, step),
        moved_both.moved(a.merged(b), step),
    ensures
        moved_both == moved_a.merged(moved_b),
{
    let m = moved_a.merged(moved_b);
    let n = a.vertices.len();
    assert forall|i: int| 0 <= i < m.vertices.len() implies moved_both.vertices[i]
        == m.vertices[i] by {
        assert(step(a.merged(b).vertices[i], moved_both.vertices[i]));
        if i < n {
            assert(step(a.vertices[i], moved_a.vertices[i]));
        } else {
            assert(step(b.vertices[i - n], moved_b.vertices[i - n]));
        }
    }
    assert(moved_both.vertices =~= m.vertices);
    assert(moved_both.normals =~= m.normals);
    assert(moved_both.indices =~= m.indices);
}

/// Positions, normals and triangle indices of a mesh under construction.
///
/// `P` describes a vertex position and `N` a normal; a triangle is three
/// consecutive entries of `indices`, wound counter-clockwise as seen from
/// its outer side.
pub struct MeshBuffer<P, N> {
    pub vertices: Vec<P>,
    pub normals: Vec<N>,
    pub indices: Vec<u32>,
}

impl<P, N> View for MeshBuffer<P, N> {
    type V = MeshModel<P, N>;

    open spec fn view(&self) -> MeshModel<P, N> {
        MeshModel {
            vertices: self.vertices@,
            normals: self.normals@,
            indices: self.indices@.map_values(|i: u32| i as int),
        }
    }
}

impl<P, N> MeshBuffer<P, N> {
    /// The empty buffer.
    pub fn empty() -> (r: Self)
        ensures
            r@ == MeshModel::<P, N>::empty(),
            r@.wf(),
    {
        let r = MeshBuffer { vertices: Vec::new(), normals: Vec::new(), indices: Vec::new() };
        assert(r@.indices =~= Seq::<int>::empty());
        r
    }

    /// Appends `other` after the vertices already held, shifting its
    /// indices by the vertex count before the call.
    pub fn merge(&mut self, other: MeshBuffer<P, N>)
        requires
            old(self)@.wf(),
            other@.wf(),
            old(self)@.vertices.len() + other@.vertices.len() <= u32::MAX,
        ensures
            final(self)@ == old(self)@.merged(other@),
            final(self)@.wf(),
    {
        let ghost before = self@;
        let offset = self.vertices.len() as u32;
        let MeshBuffer { vertices: mut more_vertices, normals: mut more_normals, indices: more_indices } =
            other;
        self.vertices.append(&mut more_vertices);
        self.normals.append(&mut more_normals);
        let start = self.indices.len();
        let mut k: usize = 0;
        while k < more_indices.len()
            invariant
                before.wf(),
                other@.wf(),
                before.vertices.len() + other@.vertices.len() <= u32::MAX,
                offset == before.vertices.len(),
                more_indices@ == other.indices@,
                start == before.indices.len(),
                0 <= k <= more_indices.len(),
                self.vertices@ == before.vertices + other@.vertices,
                self.normals@ == before.normals + other@.normals,
                self.indices.len() == start + k,
                forall|j: int| 0 <= j < start ==> self.indices@[j] as int == before.indices[j],
                forall|j: int|
                    start <= j < start + k ==> self.indices@[j] as int == more_indices@[j - start]
                        + offset,
            decreases more_indices.len() - k,
        {
            assert(other@.indices[k as int] == more_indices@[k as int] as int);
            self.indices.push(more_indices[k] + offset);
            k += 1;
        }
        proof {
            assert(self@.indices =~= before.merged(other@).indices);
            assert(self@ == before.merged(other@));
            lemma_merged_wf(before, other@);
        }
    }

    /// Moves every position by `shift`; normals and triangles stay as they
    /// are.
    pub fn translate<F: Fn(P) -> P>(&mut self, shift: F)
        where
            P: Copy,
        requires
            forall|p: P| shift.requires((p,)),
        ensures
            final(self)@.moved(old(self)@, |p: P, q: P| shift.ensures((p,), q)),
    {
        let ghost before = self@;
        let mut i: usize = 0;
        while i < self.vertices.len()
            invariant
                forall|p: P| shift.requires((p,)),
                0 <= i <= self.vertices.len(),
                self.vertices.len() == before.vertices.len(),
                self.normals@ == before.normals,
                self@.indices == before.indices,
                forall|j: int| i <= j < self.vertices.len() ==> self.vertices@[j] == before.vertices[j],
                forall|j: int|
                    0 <= j < i ==> shift.ensures((before.vertices[j],), #[trigger] self.vertices@[j]),
            decreases self.vertices.len() - i,
        {
            let p = shift(self.vertices[i]);
            self.vertices[i] = p;
            i += 1;
        }
    }

    /// The quad with corners `a b c d`, counter-clockwise as seen from the
    /// side `normal` points to.
    pub fn quad(a: P, b: P, c: P, d: P, normal: N) -> (r: Self)
        where
            N: Copy,
        ensures
            r@ == quad(seq![a, b, c, d], normal),
            r@.wf(),
    {
        let mut vertices: Vec<P> = Vec::new();
        vertices.push(a);
        vertices.push(b);
        vertices.push(c);
        vertices.push(d);
        let mut normals: Vec<N> = Vec::new();
        normals.push(normal);
        normals.push(normal);
        normals.push(normal);
        normals.push(normal);
        let mut indices: Vec<u32> = Vec::new();
        indices.push(0);
        indices.push(1);
        indices.push(2);
        indices.push(2);
        indices.push(3);
        indices.push(0);
        let r = MeshBuffer { vertices, normals, indices };
        proof {
            let corners = seq![a, b, c, d];
            assert(r@.vertices =~= corners);
            assert(r@.normals =~= quad(corners, normal).normals);
            assert(r@.indices =~= quad(corners, normal).indices);
            lemma_quad(corners, normal);
        }
        r
    }

    /// Hands over the positions, the normals and the index list.
    pub fn into_surface(self) -> (r: (Vec<P>, Vec<N>, Vec<u32>))
        ensures
            r.0@ == self@.vertices,
            r.1@ == self@.normals,
            r.2@.map_values(|i: u32| i as int) == self@.indices,
    {
        (self.vertices, self.normals, self.indices)
    }
}

} // verus!
