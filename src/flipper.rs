//! The flipper paddle: two circles of different radii, joined by their
//! common outer tangents and extruded to a thickness.
//!
//! The large circle is centred at the origin; the small one sits
//! `distance_centers` further along X and half the radius difference
//! along Z. `alpha` is twice the arctangent of the radius difference over
//! twice `distance_centers`. Of the large circle, the rim runs over
//! `[pi/2, pi/2 + pi + alpha]`; of the small one, over
//! `[-pi/2 + alpha, pi/2]`; each is cut into `resolution` equal steps.

use vstd::prelude::*;
use crate::mesh::{
    Direction, MeshBuffer, MeshModel, lemma_edges_unique_by_owner, lemma_has_edge,
    lemma_merged_corners, lemma_merged_has_edge, lemma_merged_nondegenerate, lemma_merged_triangles,
    lemma_merged_wf,
};

verus! {

/// One of the paddle's two circles.
#[derive(Clone, Copy, Debug, PartialEq, Eq, Structural)]
pub enum Arc {
    Large,
    Small,
}

/// A place on a circle: its centre, or the rim point at a step.
#[derive(Clone, Copy, Debug, PartialEq, Eq, Structural)]
pub enum Spot {
    Centre,
    Rim(u32),
}

/// A vertex position: a place on one of the circles, at the bottom
/// (height 0) or at the top (the thickness).
#[derive(Clone, Copy, Debug, PartialEq, Eq, Structural)]
pub struct FlipperPoint {
    pub arc: Arc,
    pub spot: Spot,
    pub top: bool,
}

/// A vertex normal: a cap's direction, or the outward radial direction of
/// a circle at a step.
#[derive(Clone, Copy, Debug, PartialEq, Eq, Structural)]
pub enum FlipperNormal {
    Flat(Direction),
    Radial { arc: Arc, step: u32 },
}

/// The centre of a circle, at the bottom or at the top.
pub open spec fn centre(arc: Arc, top: bool) -> FlipperPoint {
    FlipperPoint { arc, spot: Spot::Centre, top }
}

/// The rim point of a circle at a step, at the bottom or at the top.
pub open spec fn rim(arc: Arc, step: u32, top: bool) -> FlipperPoint {
    FlipperPoint { arc, spot: Spot::Rim(step), top }
}

/// The normal of the bottom or top cap.
pub open spec fn cap_normal(top: bool) -> FlipperNormal {
    FlipperNormal::Flat(if top { Direction::YPos } else { Direction::YNeg })
}

/// Index `k` of a fan: triangle `k / 3` joins the centre to two
/// consecutive rim points, ordered so that the bottom faces down and the
/// top faces up.
pub open spec fn fan_index(k: int, top: bool) -> int {
    let t = k / 3;
    if k % 3 == 0 {
        0
    } else if (k % 3 == 1) == top {
        t + 2
    } else {
        t + 1
    }
}

/// The fan of one circle at one height: its centre, then the `n + 1` rim
/// points, and `n` triangles.
pub open spec fn fan_mesh(arc: Arc, n: nat, top: bool) -> MeshModel<FlipperPoint, FlipperNormal> {
    MeshModel {
        vertices: seq![centre(arc, top)] + Seq::new(n + 1, |s: int| rim(arc, s as u32, top)),
        normals: Seq::new(n + 2, |j: int| cap_normal(top)),
        indices: Seq::new(3 * n, |k: int| fan_index(k, top)),
    }
}

/// The four triangles that close a cap between the two fans: they join
/// both centres and the first and last rim points of each circle.
pub open spec fn gusset_mesh(n: u32, top: bool) -> MeshModel<FlipperPoint, FlipperNormal> {
    MeshModel {
        vertices: seq![
            centre(Arc::Large, top),
            rim(Arc::Large, 0, top),
            rim(Arc::Large, n, top),
            centre(Arc::Small, top),
            rim(Arc::Small, 0, top),
            rim(Arc::Small, n, top),
        ],
        normals: Seq::new(6, |j: int| cap_normal(top)),
        indices: if top {
            seq![0, 4, 2, 0, 3, 4, 1, 3, 0, 1, 5, 3]
        } else {
            seq![0, 2, 4, 0, 4, 3, 1, 0, 3, 1, 3, 5]
        },
    }
}

/// A whole cap: the large fan, the gusset, then the small fan.
pub open spec fn cap_mesh(n: u32, top: bool) -> MeshModel<FlipperPoint, FlipperNormal> {
    fan_mesh(Arc::Large, n as nat, top).merged(gusset_mesh(n, top)).merged(
        fan_mesh(Arc::Small, n as nat, top),
    )
}

/// The circle and step of column `c` of the border: the `n + 1` large-rim
/// steps, then the `n + 1` small-rim steps.
pub open spec fn border_column(n: int, c: int) -> (Arc, u32) {
    if c <= n {
        (Arc::Large, c as u32)
    } else {
        (Arc::Small, (c - n - 1) as u32)
    }
}

/// Vertex `v` of the border: column `v / 2`, at the bottom for even `v`
/// and at the top for odd `v`.
pub open spec fn border_point(n: int, v: int) -> FlipperPoint {
    let (arc, step) = border_column(n, v / 2);
    rim(arc, step, v % 2 == 1)
}

/// Normal of vertex `v` of the border: the radial direction of its column.
pub open spec fn border_normal(n: int, v: int) -> FlipperNormal {
    let (arc, step) = border_column(n, v / 2);
    FlipperNormal::Radial { arc, step }
}

/// Index `k` of the border, made of one quad per column `q` that joins it
/// to the next column round the loop (the last column joins the first).
pub open spec fn border_index(n: int, k: int) -> int {
    let columns = 2 * n + 2;
    let q = k / 6;
    let next = if q + 1 == columns { 0 } else { q + 1 };
    let r = k % 6;
    if r == 0 || r == 5 {
        2 * q
    } else if r == 1 {
        2 * q + 1
    } else if r == 2 || r == 3 {
        2 * next + 1
    } else {
        2 * next
    }
}

/// The side wall: both rims at both heights, closed into a loop.
pub open spec fn border_mesh(n: nat) -> MeshModel<FlipperPoint, FlipperNormal> {
    MeshModel {
        vertices: Seq::new(4 * n + 4, |v: int| border_point(n as int, v)),
        normals: Seq::new(4 * n + 4, |v: int| border_normal(n as int, v)),
        indices: Seq::new(12 * n + 12, |k: int| border_index(n as int, k)),
    }
}

/// The paddle: the bottom cap, the top cap, then the side wall.
pub open spec fn flipper_mesh(n: u32) -> MeshModel<FlipperPoint, FlipperNormal> {
    cap_mesh(n, false).merged(cap_mesh(n, true)).merged(border_mesh(n as nat))
}

proof fn lemma_fan_mesh(arc: Arc, n: nat, top: bool)
    requires
        n + 2 <= u32::MAX,
    ensures
        fan_mesh(arc, n, top).wf(),
        fan_mesh(arc, n, top).nondegenerate(),
        fan_mesh(arc, n, top).vertices.len() == n + 2,
        fan_mesh(arc, n, top).indices.len() == 3 * n,
{
    let m = fan_mesh(arc, n, top);
    assert forall|k: int| 0 <= k < m.indices.len() implies 0 <= #[trigger] m.indices[k]
        < m.vertices.len() by {
        assert(k / 3 < n);
    }
    assert forall|t: int| 0 <= t < m.triangle_count() implies {
        let (a, b, c) = #[trigger] m.triangle(t);
        a != b && b != c && a != c
    } by {
        assert((3 * t) / 3 == t && (3 * t) % 3 == 0);
        assert((3 * t + 1) / 3 == t && (3 * t + 1) % 3 == 1);
        assert((3 * t + 2) / 3 == t && (3 * t + 2) % 3 == 2);
    }
}

proof fn lemma_gusset_mesh(n: u32, top: bool)
    ensures
        gusset_mesh(n, top).wf(),
        gusset_mesh(n, top).nondegenerate(),
        gusset_mesh(n, top).vertices.len() == 6,
        gusset_mesh(n, top).indices.len() == 12,
{
    let m = gusset_mesh(n, top);
    assert(m.triangle(0) == m.triangle(0));
    assert(m.triangle(1) == m.triangle(1));
    assert(m.triangle(2) == m.triangle(2));
    assert(m.triangle(3) == m.triangle(3));
}

proof fn lemma_cap_mesh(n: u32, top: bool)
    requires
        2 * n + 10 <= u32::MAX,
    ensures
        cap_mesh(n, top).wf(),
        cap_mesh(n, top).nondegenerate(),
        cap_mesh(n, top).vertices.len() == 2 * n + 10,
        cap_mesh(n, top).indices.len() == 6 * n + 12,
{
    let large = fan_mesh(Arc::Large, n as nat, top);
    let gusset = gusset_mesh(n, top);
    let small = fan_mesh(Arc::Small, n as nat, top);
    lemma_fan_mesh(Arc::Large, n as nat, top);
    lemma_fan_mesh(Arc::Small, n as nat, top);
    lemma_gusset_mesh(n, top);
    lemma_merged_wf(large, gusset);
    lemma_merged_nondegenerate(large, gusset);
    lemma_merged_wf(large.merged(gusset), small);
    lemma_merged_nondegenerate(large.merged(gusset), small);
}

proof fn lemma_border_mesh(n: nat)
    requires
        4 * n + 4 <= u32::MAX,
    ensures
        border_mesh(n).wf(),
        border_mesh(n).nondegenerate(),
        border_mesh(n).vertices.len() == 4 * n + 4,
        border_mesh(n).indices.len() == 12 * n + 12,
{
    let m = border_mesh(n);
    assert forall|k: int| 0 <= k < m.indices.len() implies 0 <= #[trigger] m.indices[k]
        < m.vertices.len() by {
        assert(k / 6 < 2 * n + 2);
    }
    assert forall|t: int| 0 <= t < m.triangle_count() implies {
        let (a, b, c) = #[trigger] m.triangle(t);
        a != b && b != c && a != c
    } by {
        let q = t / 2;
        if t % 2 == 0 {
            assert((3 * t) / 6 == q && (3 * t) % 6 == 0);
            assert((3 * t + 1) / 6 == q && (3 * t + 1) % 6 == 1);
            assert((3 * t + 2) / 6 == q && (3 * t + 2) % 6 == 2);
        } else {
            assert((3 * t) / 6 == q && (3 * t) % 6 == 3);
            assert((3 * t + 1) / 6 == q && (3 * t + 1) % 6 == 4);
            assert((3 * t + 2) / 6 == q && (3 * t + 2) % 6 == 5);
        }
    }
}

/// Well-formedness and size of the paddle with `n` steps.
proof fn lemma_flipper_mesh(n: u32)
    requires
        8 * n + 24 <= u32::MAX,
    ensures
        flipper_mesh(n).wf(),
        flipper_mesh(n).nondegenerate(),
        flipper_mesh(n).vertices.len() == 8 * n + 24,
        flipper_mesh(n).indices.len() == 24 * n + 36,
{
    let bottom = cap_mesh(n, false);
    let top = cap_mesh(n, true);
    let border = border_mesh(n as nat);
    lemma_cap_mesh(n, false);
    lemma_cap_mesh(n, true);
    lemma_border_mesh(n as nat);
    lemma_merged_wf(bottom, top);
    lemma_merged_nondegenerate(bottom, top);
    lemma_merged_wf(bottom.merged(top), border);
    lemma_merged_nondegenerate(bottom.merged(top), border);
}

/// Rim point of border column `c` at the bottom or at the top.
pub open spec fn column_point(n: int, c: int, top: bool) -> FlipperPoint {
    let (arc, step) = border_column(n, c);
    rim(arc, step, top)
}

/// The border column after `q`, round the loop.
pub open spec fn next_column(n: int, q: int) -> int {
    if q + 1 == 2 * n + 2 {
        0
    } else {
        q + 1
    }
}

proof fn lemma_fan_corners(arc: Arc, n: nat, top: bool)
    requires
        n + 2 <= u32::MAX,
    ensures
        forall|t: int|
            0 <= t < n ==> #[trigger] fan_mesh(arc, n, top).corners(t) == if top {
                (centre(arc, top), rim(arc, (t + 1) as u32, top), rim(arc, t as u32, top))
            } else {
                (centre(arc, top), rim(arc, t as u32, top), rim(arc, (t + 1) as u32, top))
            },
{
    let m = fan_mesh(arc, n, top);
    reveal(MeshModel::corners);
    assert forall|t: int| 0 <= t < n implies #[trigger] m.corners(t) == if top {
        (centre(arc, top), rim(arc, (t + 1) as u32, top), rim(arc, t as u32, top))
    } else {
        (centre(arc, top), rim(arc, t as u32, top), rim(arc, (t + 1) as u32, top))
    } by {
        assert((3 * t) / 3 == t && (3 * t) % 3 == 0);
        assert((3 * t + 1) / 3 == t && (3 * t + 1) % 3 == 1);
        assert((3 * t + 2) / 3 == t && (3 * t + 2) % 3 == 2);
        assert(m.vertices[t + 1] == rim(arc, t as u32, top));
        assert(m.vertices[t + 2] == rim(arc, (t + 1) as u32, top));
    }
}

proof fn lemma_gusset_corners(n: u32, top: bool)
    ensures
        ({
            let m = gusset_mesh(n, top);
            let (cl, l0, ln) = (centre(Arc::Large, top), rim(Arc::Large, 0, top), rim(Arc::Large, n, top));
            let (cs, s0, sn) = (centre(Arc::Small, top), rim(Arc::Small, 0, top), rim(Arc::Small, n, top));
            if top {
                &&& m.corners(0) == (cl, s0, ln)
                &&& m.corners(1) == (cl, cs, s0)
                &&& m.corners(2) == (l0, cs, cl)
                &&& m.corners(3) == (l0, sn, cs)
            } else {
                &&& m.corners(0) == (cl, ln, s0)
                &&& m.corners(1) == (cl, s0, cs)
                &&& m.corners(2) == (l0, cl, cs)
                &&& m.corners(3) == (l0, cs, sn)
            }
        }),
{
    reveal(MeshModel::corners);
}

proof fn lemma_border_corners(n: nat)
    requires
        4 * n + 4 <= u32::MAX,
    ensures
        forall|q: int|
            0 <= q < 2 * n + 2 ==> #[trigger] border_mesh(n).corners(2 * q) == (
                column_point(n as int, q, false),
                column_point(n as int, q, true),
                column_point(n as int, next_column(n as int, q), true),
            ),
        forall|q: int|
            0 <= q < 2 * n + 2 ==> #[trigger] border_mesh(n).corners(2 * q + 1) == (
                column_point(n as int, next_column(n as int, q), true),
                column_point(n as int, next_column(n as int, q), false),
                column_point(n as int, q, false),
            ),
{
    let m = border_mesh(n);
    reveal(MeshModel::corners);
    assert forall|q: int| 0 <= q < 2 * n + 2 implies {
        &&& #[trigger] m.corners(2 * q) == (
            column_point(n as int, q, false),
            column_point(n as int, q, true),
            column_point(n as int, next_column(n as int, q), true),
        )
        &&& m.corners(2 * q + 1) == (
            column_point(n as int, next_column(n as int, q), true),
            column_point(n as int, next_column(n as int, q), false),
            column_point(n as int, q, false),
        )
    } by {
        let k = 6 * q;
        let x = next_column(n as int, q);
        assert(k / 6 == q && k % 6 == 0);
        assert((k + 1) / 6 == q && (k + 1) % 6 == 1);
        assert((k + 2) / 6 == q && (k + 2) % 6 == 2);
        assert((k + 3) / 6 == q && (k + 3) % 6 == 3);
        assert((k + 4) / 6 == q && (k + 4) % 6 == 4);
        assert((k + 5) / 6 == q && (k + 5) % 6 == 5);
        assert((2 * q) / 2 == q && (2 * q) % 2 == 0);
        assert((2 * q + 1) / 2 == q && (2 * q + 1) % 2 == 1);
        assert((2 * x) / 2 == x && (2 * x) % 2 == 0);
        assert((2 * x + 1) / 2 == x && (2 * x + 1) % 2 == 1);
        assert(m.vertices[2 * q] == column_point(n as int, q, false));
        assert(m.vertices[2 * q + 1] == column_point(n as int, q, true));
        assert(m.vertices[2 * x] == column_point(n as int, x, false));
        assert(m.vertices[2 * x + 1] == column_point(n as int, x, true));
        assert(3 * (2 * q) == k && 3 * (2 * q + 1) == k + 3);
    }
}

/// Every edge of each of the paddle's pieces is an edge of `f`.
spec fn covers_pieces(f: MeshModel<FlipperPoint, FlipperNormal>, n: u32) -> bool {
    &&& forall|p: FlipperPoint, q: FlipperPoint|
        #[trigger] fan_mesh(Arc::Large, n as nat, false).has_edge(p, q) ==> f.has_edge(p, q)
    &&& forall|p: FlipperPoint, q: FlipperPoint|
        #[trigger] gusset_mesh(n, false).has_edge(p, q) ==> f.has_edge(p, q)
    &&& forall|p: FlipperPoint, q: FlipperPoint|
        #[trigger] fan_mesh(Arc::Small, n as nat, false).has_edge(p, q) ==> f.has_edge(p, q)
    &&& forall|p: FlipperPoint, q: FlipperPoint|
        #[trigger] fan_mesh(Arc::Large, n as nat, true).has_edge(p, q) ==> f.has_edge(p, q)
    &&& forall|p: FlipperPoint, q: FlipperPoint|
        #[trigger] gusset_mesh(n, true).has_edge(p, q) ==> f.has_edge(p, q)
    &&& forall|p: FlipperPoint, q: FlipperPoint|
        #[trigger] fan_mesh(Arc::Small, n as nat, true).has_edge(p, q) ==> f.has_edge(p, q)
    &&& forall|p: FlipperPoint, q: FlipperPoint|
        #[trigger] border_mesh(n as nat).has_edge(p, q) ==> f.has_edge(p, q)
}

proof fn lemma_flipper_pieces(n: u32)
    requires
        8 * n + 24 <= u32::MAX,
    ensures
        covers_pieces(flipper_mesh(n), n),
{
    lemma_fan_mesh(Arc::Large, n as nat, false);
    lemma_fan_mesh(Arc::Small, n as nat, false);
    lemma_fan_mesh(Arc::Large, n as nat, true);
    lemma_fan_mesh(Arc::Small, n as nat, true);
    lemma_gusset_mesh(n, false);
    lemma_gusset_mesh(n, true);
    lemma_cap_mesh(n, false);
    lemma_cap_mesh(n, true);
    lemma_border_mesh(n as nat);
    lemma_flipper_mesh(n);
    lemma_cap_pieces(n, false);
    lemma_cap_pieces(n, true);
    lemma_merged_wf(cap_mesh(n, false), cap_mesh(n, true));
    lemma_merged_has_edge(cap_mesh(n, false), cap_mesh(n, true));
    lemma_merged_has_edge(cap_mesh(n, false).merged(cap_mesh(n, true)), border_mesh(n as nat));
}

proof fn lemma_cap_pieces(n: u32, top: bool)
    requires
        8 * n + 24 <= u32::MAX,
    ensures
        forall|p: FlipperPoint, q: FlipperPoint|
            #[trigger] fan_mesh(Arc::Large, n as nat, top).has_edge(p, q) ==> cap_mesh(n, top).has_edge(p, q),
        forall|p: FlipperPoint, q: FlipperPoint|
            #[trigger] gusset_mesh(n, top).has_edge(p, q) ==> cap_mesh(n, top).has_edge(p, q),
        forall|p: FlipperPoint, q: FlipperPoint|
            #[trigger] fan_mesh(Arc::Small, n as nat, top).has_edge(p, q) ==> cap_mesh(n, top).has_edge(p, q),
{
    let large = fan_mesh(Arc::Large, n as nat, top);
    let gusset = gusset_mesh(n, top);
    let small = fan_mesh(Arc::Small, n as nat, top);
    lemma_fan_mesh(Arc::Large, n as nat, top);
    lemma_fan_mesh(Arc::Small, n as nat, top);
    lemma_gusset_mesh(n, top);
    lemma_merged_wf(large, gusset);
    lemma_merged_has_edge(large, gusset);
    lemma_merged_has_edge(large.merged(gusset), small);
}

/// The three edges of a triangle with corners `tri`, each run the other
/// way, are edges of `m`.
spec fn edges_returned(m: MeshModel<FlipperPoint, FlipperNormal>, tri: (FlipperPoint, FlipperPoint, FlipperPoint)) -> bool {
    let (a, b, c) = tri;
    m.has_edge(b, a) && m.has_edge(c, b) && m.has_edge(a, c)
}

proof fn lemma_fan_triangle_closed(
    f: MeshModel<FlipperPoint, FlipperNormal>,
    arc: Arc,
    n: u32,
    top: bool,
    u: int,
)
    requires
        covers_pieces(f, n),
        1 <= n,
        8 * n + 24 <= u32::MAX,
        0 <= u < n,
    ensures
        edges_returned(f, fan_mesh(arc, n as nat, top).corners(u)),
{
    let fan = fan_mesh(arc, n as nat, top);
    let g = gusset_mesh(n, top);
    let b = border_mesh(n as nat);
    let k = n as int;
    lemma_fan_mesh(arc, n as nat, top);
    lemma_fan_corners(arc, n as nat, top);
    lemma_gusset_corners(n, top);
    lemma_border_corners(n as nat);
    let c = centre(arc, top);
    let r0 = rim(arc, u as u32, top);
    let r1 = rim(arc, (u + 1) as u32, top);
    // the rim edge, shared with the border: step `u` stands in column `q`
    let q = if arc == Arc::Large { u } else { k + 1 + u };
    assert(next_column(k, q) == q + 1);
    assert(column_point(k, q, top) == r0);
    assert(column_point(k, q + 1, top) == r1);
    if top {
        assert(b.corners(2 * q) == b.corners(2 * q));
        lemma_has_edge(b, 2 * q, r0, r1);
    } else {
        assert(b.corners(2 * q + 1) == b.corners(2 * q + 1));
        lemma_has_edge(b, 2 * q + 1, r1, r0);
    }
    // the edge between the centre and step `u`
    if u > 0 {
        assert(fan.corners(u - 1) == fan.corners(u - 1));
        if top {
            lemma_has_edge(fan, u - 1, c, r0);
        } else {
            lemma_has_edge(fan, u - 1, r0, c);
        }
    } else {
        let w = if arc == Arc::Large { 2int } else { 1int };
        if top {
            lemma_has_edge(g, w, c, r0);
        } else {
            lemma_has_edge(g, w, r0, c);
        }
    }
    // the edge between step `u + 1` and the centre
    if u + 1 < n {
        assert(fan.corners(u + 1) == fan.corners(u + 1));
        if top {
            lemma_has_edge(fan, u + 1, r1, c);
        } else {
            lemma_has_edge(fan, u + 1, c, r1);
        }
    } else {
        let w = if arc == Arc::Large { 0int } else { 3int };
        if top {
            lemma_has_edge(g, w, r1, c);
        } else {
            lemma_has_edge(g, w, c, r1);
        }
    }
    assert(fan.corners(u) == fan.corners(u));
}

proof fn lemma_gusset_triangle_closed(
    f: MeshModel<FlipperPoint, FlipperNormal>,
    n: u32,
    top: bool,
    u: int,
)
    requires
        covers_pieces(f, n),
        1 <= n,
        8 * n + 24 <= u32::MAX,
        0 <= u < 4,
    ensures
        edges_returned(f, gusset_mesh(n, top).corners(u)),
{
    let g = gusset_mesh(n, top);
    let large = fan_mesh(Arc::Large, n as nat, top);
    let small = fan_mesh(Arc::Small, n as nat, top);
    let b = border_mesh(n as nat);
    let k = n as int;
    let last = (n - 1) as int;
    lemma_fan_corners(Arc::Large, n as nat, top);
    lemma_fan_corners(Arc::Small, n as nat, top);
    lemma_gusset_corners(n, top);
    lemma_border_corners(n as nat);
    let (cl, l0, ln) = (centre(Arc::Large, top), rim(Arc::Large, 0, top), rim(Arc::Large, n, top));
    let (cs, s0, sn) = (centre(Arc::Small, top), rim(Arc::Small, 0, top), rim(Arc::Small, n, top));
    assert(large.corners(0) == large.corners(0));
    assert(large.corners(last) == large.corners(last));
    assert(small.corners(0) == small.corners(0));
    assert(small.corners(last) == small.corners(last));
    assert(column_point(k, k, top) == ln);
    assert(column_point(k, k + 1, top) == s0);
    assert(column_point(k, 2 * k + 1, top) == sn);
    assert(column_point(k, 0, top) == l0);
    assert(next_column(k, k) == k + 1);
    assert(next_column(k, 2 * k + 1) == 0);
    let q = if u == 0 { k } else { 2 * k + 1 };
    if top {
        assert(b.corners(2 * q) == b.corners(2 * q));
        if u == 0 {
            lemma_has_edge(g, 1, s0, cl);
            lemma_has_edge(b, 2 * q, ln, s0);
            lemma_has_edge(large, last, cl, ln);
        } else if u == 1 {
            lemma_has_edge(g, 2, cs, cl);
            lemma_has_edge(small, 0, s0, cs);
            lemma_has_edge(g, 0, cl, s0);
        } else if u == 2 {
            lemma_has_edge(g, 3, cs, l0);
            lemma_has_edge(g, 1, cl, cs);
            lemma_has_edge(large, 0, l0, cl);
        } else {
            lemma_has_edge(b, 2 * q, sn, l0);
            lemma_has_edge(small, last, cs, sn);
            lemma_has_edge(g, 2, l0, cs);
        }
    } else {
        assert(b.corners(2 * q + 1) == b.corners(2 * q + 1));
        if u == 0 {
            lemma_has_edge(large, last, ln, cl);
            lemma_has_edge(b, 2 * q + 1, s0, ln);
            lemma_has_edge(g, 1, cl, s0);
        } else if u == 1 {
            lemma_has_edge(g, 0, s0, cl);
            lemma_has_edge(small, 0, cs, s0);
            lemma_has_edge(g, 2, cl, cs);
        } else if u == 2 {
            lemma_has_edge(large, 0, cl, l0);
            lemma_has_edge(g, 1, cs, cl);
            lemma_has_edge(g, 3, l0, cs);
        } else {
            lemma_has_edge(g, 2, cs, l0);
            lemma_has_edge(small, last, sn, cs);
            lemma_has_edge(b, 2 * q + 1, l0, sn);
        }
    }
}

proof fn lemma_border_triangle_closed(f: MeshModel<FlipperPoint, FlipperNormal>, n: u32, t: int)
    requires
        covers_pieces(f, n),
        1 <= n,
        8 * n + 24 <= u32::MAX,
        0 <= t < 4 * n + 4,
    ensures
        edges_returned(f, border_mesh(n as nat).corners(t)),
{
    let b = border_mesh(n as nat);
    let k = n as int;
    let q = t / 2;
    let next = next_column(k, q);
    let prev = if q == 0 { 2 * k + 1 } else { q - 1 };
    lemma_border_corners(n as nat);
    lemma_gusset_corners(n, false);
    lemma_gusset_corners(n, true);
    lemma_fan_corners(Arc::Large, n as nat, false);
    lemma_fan_corners(Arc::Large, n as nat, true);
    lemma_fan_corners(Arc::Small, n as nat, false);
    lemma_fan_corners(Arc::Small, n as nat, true);
    assert(next_column(k, prev) == q);
    assert(b.corners(2 * q) == b.corners(2 * q));
    assert(b.corners(2 * q + 1) == b.corners(2 * q + 1));
    assert(b.corners(2 * prev + 1) == b.corners(2 * prev + 1));
    assert(b.corners(2 * next) == b.corners(2 * next));
    let (qb, qt) = (column_point(k, q, false), column_point(k, q, true));
    let (nb, nt) = (column_point(k, next, false), column_point(k, next, true));
    // the vertical edges and the diagonal stay within the border
    lemma_has_edge(b, 2 * prev + 1, qt, qb);
    lemma_has_edge(b, 2 * next, nb, nt);
    lemma_has_edge(b, 2 * q + 1, qb, nt);
    lemma_has_edge(b, 2 * q, nt, qb);
    // the rim edges are shared with the caps
    let top = t % 2 == 0;
    let (from, to) = if top { (nt, qt) } else { (qb, nb) };
    if q < k {
        let fan = fan_mesh(Arc::Large, n as nat, top);
        assert(fan.corners(q) == fan.corners(q));
        lemma_has_edge(fan, q, from, to);
    } else if q == k {
        lemma_has_edge(gusset_mesh(n, top), 0, from, to);
    } else if q < 2 * k + 1 {
        let fan = fan_mesh(Arc::Small, n as nat, top);
        let s = q - k - 1;
        assert(fan.corners(s) == fan.corners(s));
        lemma_has_edge(fan, s, from, to);
    } else {
        lemma_has_edge(gusset_mesh(n, top), 3, from, to);
    }
    assert(t == 2 * q || t == 2 * q + 1);
}

proof fn lemma_cap_triangle_closed(
    f: MeshModel<FlipperPoint, FlipperNormal>,
    n: u32,
    top: bool,
    c: int,
)
    requires
        covers_pieces(f, n),
        1 <= n,
        8 * n + 24 <= u32::MAX,
        0 <= c < 2 * n + 4,
    ensures
        edges_returned(f, cap_mesh(n, top).corners(c)),
{
    let k = n as int;
    let l = fan_mesh(Arc::Large, n as nat, top);
    let g = gusset_mesh(n, top);
    let r = fan_mesh(Arc::Small, n as nat, top);
    lemma_fan_mesh(Arc::Large, n as nat, top);
    lemma_fan_mesh(Arc::Small, n as nat, top);
    lemma_gusset_mesh(n, top);
    lemma_merged_wf(l, g);
    lemma_merged_corners(l, g);
    lemma_merged_corners(l.merged(g), r);
    if c < k {
        assert(l.merged(g).corners(c) == l.corners(c));
        lemma_fan_triangle_closed(f, Arc::Large, n, top, c);
    } else if c < k + 4 {
        assert(l.merged(g).corners(k + (c - k)) == g.corners(c - k));
        lemma_gusset_triangle_closed(f, n, top, c - k);
    } else {
        assert(l.merged(g).merged(r).corners((k + 4) + (c - k - 4)) == r.corners(c - k - 4));
        lemma_fan_triangle_closed(f, Arc::Small, n, top, c - k - 4);
    }
}

proof fn lemma_closed_from_pieces(
    f: MeshModel<FlipperPoint, FlipperNormal>,
    n: u32,
    bottom: MeshModel<FlipperPoint, FlipperNormal>,
    top: MeshModel<FlipperPoint, FlipperNormal>,
    border: MeshModel<FlipperPoint, FlipperNormal>,
)
    requires
        covers_pieces(f, n),
        1 <= n,
        8 * n + 24 <= u32::MAX,
        bottom == cap_mesh(n, false),
        top == cap_mesh(n, true),
        border == border_mesh(n as nat),
        f.triangle_count() == 8 * n + 12,
        forall|t: int| 0 <= t < 2 * n + 4 ==> #[trigger] f.corners(t) == bottom.corners(t),
        forall|t: int|
            0 <= t < 2 * n + 4 ==> #[trigger] f.corners((2 * n + 4) + t) == top.corners(t),
        forall|t: int|
            0 <= t < 4 * n + 4 ==> #[trigger] f.corners((4 * n + 8) + t) == border.corners(t),
    ensures
        f.closed(),
{
    let cap_tris = 2 * n + 4;
    assert forall|t: int| 0 <= t < f.triangle_count() implies {
        let (x, y, z) = #[trigger] f.corners(t);
        f.has_edge(y, x) && f.has_edge(z, y) && f.has_edge(x, z)
    } by {
        if t < cap_tris {
            lemma_cap_triangle_closed(f, n, false, t);
        } else if t < 2 * cap_tris {
            assert(f.corners((2 * n + 4) + (t - cap_tris)) == top.corners(t - cap_tris));
            lemma_cap_triangle_closed(f, n, true, t - cap_tris);
        } else {
            let u = t - 2 * cap_tris;
            assert(f.corners((4 * n + 8) + u) == border.corners(u));
            assert(t == (4 * n + 8) + u);
            lemma_border_triangle_closed(f, n, u);
        }
    }
}

/// The paddle is closed: every edge of every triangle is run the other way
/// by another triangle, so the surface has no border and its pieces (the
/// two caps, their gussets and the side wall) agree on which side is
/// outside. Positions are compared as rim and centre points, so this holds
/// for any dimensions.
pub proof fn lemma_flipper_closed(n: u32)
    requires
        1 <= n,
        8 * n + 24 <= u32::MAX,
    ensures
        flipper_mesh(n).closed(),
{
    let bottom = cap_mesh(n, false);
    let top = cap_mesh(n, true);
    let border = border_mesh(n as nat);
    lemma_flipper_pieces(n);
    lemma_flipper_mesh(n);
    lemma_cap_mesh(n, false);
    lemma_cap_mesh(n, true);
    lemma_border_mesh(n as nat);
    lemma_merged_wf(bottom, top);
    lemma_merged_triangles(bottom, top);
    lemma_merged_corners(bottom, top);
    lemma_merged_corners(bottom.merged(top), border);
    lemma_closed_from_pieces(flipper_mesh(n), n, bottom, top, border);
}

/// The border column a rim point stands in.
pub open spec fn column_of(n: int, p: FlipperPoint) -> int {
    match p.spot {
        Spot::Rim(s) => if p.arc == Arc::Large {
            s as int
        } else {
            n + 1 + s
        },
        Spot::Centre => -1,
    }
}

/// Within a cap, listed as the bottom cap lists it (large fan, gusset,
/// small fan), the triangle that runs from `a` to `z` in the bottom cap.
pub open spec fn cap_owner(n: int, a: FlipperPoint, z: FlipperPoint) -> int {
    match (a.spot, z.spot) {
        (Spot::Centre, Spot::Rim(s)) => if a.arc == Arc::Large {
            if z.arc == Arc::Large { s as int } else { n + 1 }
        } else {
            if z.arc == Arc::Small {
                if s == n { n + 3 } else { n + 4 + s }
            } else {
                n + 2
            }
        },
        (Spot::Rim(s), Spot::Centre) => if z.arc == Arc::Large {
            if a.arc == Arc::Large {
                if s == 0 { n + 2 } else { s - 1 }
            } else {
                n
            }
        } else {
            if a.arc == Arc::Small {
                if s == 0 { n + 1 } else { n + 3 + s }
            } else {
                n + 3
            }
        },
        (Spot::Centre, Spot::Centre) => if a.arc == Arc::Large { n + 2 } else { n + 1 },
        (Spot::Rim(_), Spot::Rim(_)) => {
            let c = column_of(n, a);
            if c < n {
                c
            } else if c == n {
                n
            } else if c < 2 * n + 1 {
                c + 3
            } else {
                n + 3
            }
        },
    }
}

/// The triangle of the paddle with `n` steps that runs from `p` to `q`:
/// caps first (bottom, then top), then the border's quads.
pub open spec fn edge_owner(n: int, p: FlipperPoint, q: FlipperPoint) -> int {
    let wall = 4 * n + 8;
    if p.top != q.top {
        let (cp, cq) = (column_of(n, p), column_of(n, q));
        if cp == cq {
            if !p.top {
                wall + 2 * cp
            } else {
                wall + 2 * (if cp == 0 { 2 * n + 1 } else { cp - 1 }) + 1
            }
        } else if !p.top {
            wall + 2 * cp + 1
        } else {
            wall + 2 * cq
        }
    } else {
        let h = p.top;
        let (a, z) = if h { (q, p) } else { (p, q) };
        if a.spot is Rim && z.spot is Rim && next_column(n, column_of(n, z)) == column_of(n, a) {
            wall + 2 * column_of(n, z) + (if h { 0int } else { 1int })
        } else {
            (if h { 2 * n + 4 } else { 0int }) + cap_owner(n, a, z)
        }
    }
}

/// A triangle with corners `tri` has three distinct corners, and each of
/// its edges has `t` as its owner.
spec fn owned_by(n: int, tri: (FlipperPoint, FlipperPoint, FlipperPoint), t: int) -> bool {
    let (x, y, z) = tri;
    &&& x != y && y != z && x != z
    &&& edge_owner(n, x, y) == t && edge_owner(n, y, z) == t && edge_owner(n, z, x) == t
}

proof fn lemma_fan_owned(arc: Arc, n: u32, top: bool, u: int)
    requires
        1 <= n,
        8 * n + 24 <= u32::MAX,
        0 <= u < n,
    ensures
        owned_by(
            n as int,
            fan_mesh(arc, n as nat, top).corners(u),
            (if top { 2 * n + 4 } else { 0int }) + (if arc == Arc::Large { u } else { n + 4 + u }),
        ),
{
    lemma_fan_corners(arc, n as nat, top);
    assert(fan_mesh(arc, n as nat, top).corners(u) == fan_mesh(arc, n as nat, top).corners(u));
}

proof fn lemma_gusset_owned(n: u32, top: bool, u: int)
    requires
        1 <= n,
        8 * n + 24 <= u32::MAX,
        0 <= u < 4,
    ensures
        owned_by(n as int, gusset_mesh(n, top).corners(u), (if top { 2 * n + 4 } else { 0int }) + n + u),
{
    lemma_gusset_corners(n, top);
}

proof fn lemma_border_owned(n: u32, t: int)
    requires
        1 <= n,
        8 * n + 24 <= u32::MAX,
        0 <= t < 4 * n + 4,
    ensures
        owned_by(n as int, border_mesh(n as nat).corners(t), 4 * n + 8 + t),
{
    let k = n as int;
    let q = t / 2;
    lemma_border_corners(n as nat);
    let x = next_column(k, q);
    assert(x != q);
    assert(next_column(k, if x == 0 { 2 * k + 1 } else { x - 1 }) == x);
    assert((if x == 0 { 2 * k + 1 } else { x - 1 }) == q);
    assert(column_of(k, column_point(k, q, true)) == q);
    assert(column_of(k, column_point(k, x, true)) == x);
    assert(column_of(k, column_point(k, q, false)) == q);
    assert(column_of(k, column_point(k, x, false)) == x);
    assert(next_column(k, x) != q);
    if t % 2 == 0 {
        assert(t == 2 * q);
        assert(border_mesh(n as nat).corners(2 * q) == border_mesh(n as nat).corners(2 * q));
    } else {
        assert(t == 2 * q + 1);
        assert(border_mesh(n as nat).corners(2 * q + 1) == border_mesh(n as nat).corners(2 * q + 1));
    }
}

proof fn lemma_cap_owned(n: u32, top: bool, c: int)
    requires
        1 <= n,
        8 * n + 24 <= u32::MAX,
        0 <= c < 2 * n + 4,
    ensures
        owned_by(n as int, cap_mesh(n, top).corners(c), (if top { 2 * n + 4 } else { 0int }) + c),
{
    let k = n as int;
    let l = fan_mesh(Arc::Large, n as nat, top);
    let g = gusset_mesh(n, top);
    let r = fan_mesh(Arc::Small, n as nat, top);
    lemma_fan_mesh(Arc::Large, n as nat, top);
    lemma_fan_mesh(Arc::Small, n as nat, top);
    lemma_gusset_mesh(n, top);
    lemma_merged_wf(l, g);
    lemma_merged_corners(l, g);
    lemma_merged_corners(l.merged(g), r);
    if c < k {
        assert(l.merged(g).corners(c) == l.corners(c));
        lemma_fan_owned(Arc::Large, n, top, c);
    } else if c < k + 4 {
        assert(l.merged(g).corners(k + (c - k)) == g.corners(c - k));
        lemma_gusset_owned(n, top, c - k);
    } else {
        assert(l.merged(g).merged(r).corners((k + 4) + (c - k - 4)) == r.corners(c - k - 4));
        lemma_fan_owned(Arc::Small, n, top, c - k - 4);
    }
}

proof fn lemma_owned_from_pieces(
    f: MeshModel<FlipperPoint, FlipperNormal>,
    n: u32,
    bottom: MeshModel<FlipperPoint, FlipperNormal>,
    top: MeshModel<FlipperPoint, FlipperNormal>,
    border: MeshModel<FlipperPoint, FlipperNormal>,
)
    requires
        1 <= n,
        8 * n + 24 <= u32::MAX,
        bottom == cap_mesh(n, false),
        top == cap_mesh(n, true),
        border == border_mesh(n as nat),
        f.triangle_count() == 8 * n + 12,
        forall|t: int| 0 <= t < 2 * n + 4 ==> #[trigger] f.corners(t) == bottom.corners(t),
        forall|t: int|
            0 <= t < 2 * n + 4 ==> #[trigger] f.corners((2 * n + 4) + t) == top.corners(t),
        forall|t: int|
            0 <= t < 4 * n + 4 ==> #[trigger] f.corners((4 * n + 8) + t) == border.corners(t),
    ensures
        forall|t: int| 0 <= t < f.triangle_count() ==> owned_by(n as int, #[trigger] f.corners(t), t),
{
    assert forall|t: int| 0 <= t < f.triangle_count() implies owned_by(
        n as int,
        #[trigger] f.corners(t),
        t,
    ) by {
        if t < 2 * n + 4 {
            lemma_cap_owned(n, false, t);
        } else if t < 4 * n + 8 {
            let u = t - (2 * n + 4);
            assert(f.corners((2 * n + 4) + u) == top.corners(u));
            lemma_cap_owned(n, true, u);
        } else {
            let u = t - (4 * n + 8);
            assert(f.corners((4 * n + 8) + u) == border.corners(u));
            lemma_border_owned(n, u);
        }
    }
}

/// No two triangles of the paddle run the same edge in the same direction,
/// and no triangle runs an edge twice. With the paddle being closed, every
/// edge lies in exactly two triangles, once each way.
pub proof fn lemma_flipper_edges_unique(n: u32)
    requires
        1 <= n,
        8 * n + 24 <= u32::MAX,
    ensures
        flipper_mesh(n).edges_unique(),
{
    let f = flipper_mesh(n);
    let bottom = cap_mesh(n, false);
    let top = cap_mesh(n, true);
    let border = border_mesh(n as nat);
    lemma_flipper_mesh(n);
    lemma_cap_mesh(n, false);
    lemma_cap_mesh(n, true);
    lemma_border_mesh(n as nat);
    lemma_merged_wf(bottom, top);
    lemma_merged_triangles(bottom, top);
    lemma_merged_corners(bottom, top);
    lemma_merged_corners(bottom.merged(top), border);
    lemma_owned_from_pieces(f, n, bottom, top, border);
    let owner = |p: FlipperPoint, q: FlipperPoint| edge_owner(n as int, p, q);
    assert forall|t: int| 0 <= t < f.triangle_count() implies {
        let (x, y, z) = #[trigger] f.corners(t);
        &&& x != y && y != z && x != z
        &&& owner(x, y) == t && owner(y, z) == t && owner(z, x) == t
    } by {
        assert(owned_by(n as int, f.corners(t), t));
    }
    lemma_edges_unique_by_owner(f, owner);
}

fn rim_point(arc: Arc, step: u32, top: bool) -> (r: FlipperPoint)
    ensures
        r == rim(arc, step, top),
{
    FlipperPoint { arc, spot: Spot::Rim(step), top }
}

/// The fan of one circle at the bottom or at the top: the centre and the
/// `resolution + 1` rim points, with `resolution` triangles facing down or
/// up.
pub fn fan(arc: Arc, resolution: u32, top: bool) -> (r: MeshBuffer<FlipperPoint, FlipperNormal>)
    requires
        resolution + 2 <= u32::MAX,
    ensures
        r@ == fan_mesh(arc, resolution as nat, top),
        r@.wf(),
        r@.nondegenerate(),
{
    let normal = FlipperNormal::Flat(if top { Direction::YPos } else { Direction::YNeg });
    let (first, second): (u32, u32) = if top { (1, 0) } else { (0, 1) };
    let mut r: MeshBuffer<FlipperPoint, FlipperNormal> = MeshBuffer::empty();
    r.vertices.push(FlipperPoint { arc, spot: Spot::Centre, top });
    r.normals.push(normal);
    let mut s: u32 = 0;
    while s <= resolution
        invariant
            resolution + 2 <= u32::MAX,
            0 <= s <= resolution + 1,
            normal == cap_normal(top),
            r.vertices@ =~= seq![centre(arc, top)] + Seq::new(s as nat, |j: int| rim(arc, j as u32, top)),
            r.normals@ =~= Seq::new((s + 1) as nat, |j: int| cap_normal(top)),
            r.indices@.len() == 0,
        decreases resolution + 1 - s,
    {
        r.vertices.push(rim_point(arc, s, top));
        r.normals.push(normal);
        s += 1;
    }
    let mut i: u32 = 1;
    while i < resolution + 1
        invariant
            resolution + 2 <= u32::MAX,
            1 <= i <= resolution + 1,
            first == (if top { 1u32 } else { 0u32 }),
            second == (if top { 0u32 } else { 1u32 }),
            r.vertices@ == fan_mesh(arc, resolution as nat, top).vertices,
            r.normals@ == fan_mesh(arc, resolution as nat, top).normals,
            r.indices@.len() == 3 * (i - 1),
            r@.indices =~= Seq::new(3 * (i - 1) as nat, |k: int| fan_index(k, top)),
        decreases resolution + 1 - i,
    {
        let ghost before = r@.indices;
        r.indices.push(0);
        r.indices.push(i + first);
        r.indices.push(i + second);
        proof {
            let k = 3 * (i - 1);
            assert(k / 3 == i - 1 && k % 3 == 0);
            assert((k + 1) / 3 == i - 1 && (k + 1) % 3 == 1);
            assert((k + 2) / 3 == i - 1 && (k + 2) % 3 == 2);
            assert(r@.indices[k] == fan_index(k, top));
            assert(r@.indices[k + 1] == fan_index(k + 1, top));
            assert(r@.indices[k + 2] == fan_index(k + 2, top));
            assert forall|j: int| 0 <= j < k implies r@.indices[j] == fan_index(j, top) by {
                assert(r@.indices[j] == before[j]);
            }
            assert(r@.indices =~= Seq::new(3 * i as nat, |k: int| fan_index(k, top)));
        }
        i += 1;
    }
    proof {
        assert(r@ == fan_mesh(arc, resolution as nat, top));
        lemma_fan_mesh(arc, resolution as nat, top);
    }
    r
}

/// The four triangles that close a cap between the two fans.
pub fn gusset(resolution: u32, top: bool) -> (r: MeshBuffer<FlipperPoint, FlipperNormal>)
    ensures
        r@ == gusset_mesh(resolution, top),
        r@.wf(),
        r@.nondegenerate(),
{
    let normal = FlipperNormal::Flat(if top { Direction::YPos } else { Direction::YNeg });
    let mut r: MeshBuffer<FlipperPoint, FlipperNormal> = MeshBuffer::empty();
    r.vertices.push(FlipperPoint { arc: Arc::Large, spot: Spot::Centre, top });
    r.vertices.push(rim_point(Arc::Large, 0, top));
    r.vertices.push(rim_point(Arc::Large, resolution, top));
    r.vertices.push(FlipperPoint { arc: Arc::Small, spot: Spot::Centre, top });
    r.vertices.push(rim_point(Arc::Small, 0, top));
    r.vertices.push(rim_point(Arc::Small, resolution, top));
    assert(r.vertices@ =~= gusset_mesh(resolution, top).vertices);
    let mut j: usize = 0;
    while j < 6
        invariant
            0 <= j <= 6,
            normal == cap_normal(top),
            r.vertices@ == gusset_mesh(resolution, top).vertices,
            r.normals@ =~= Seq::new(j as nat, |k: int| cap_normal(top)),
            r.indices@.len() == 0,
        decreases 6 - j,
    {
        r.normals.push(normal);
        j += 1;
    }
    let pattern: [u32; 12] = if top {
        [0, 4, 2, 0, 3, 4, 1, 3, 0, 1, 5, 3]
    } else {
        [0, 2, 4, 0, 4, 3, 1, 0, 3, 1, 3, 5]
    };
    assert(pattern@.map_values(|i: u32| i as int) =~= gusset_mesh(resolution, top).indices);
    let mut k: usize = 0;
    while k < 12
        invariant
            0 <= k <= 12,
            pattern@.map_values(|i: u32| i as int) == gusset_mesh(resolution, top).indices,
            r.vertices@ == gusset_mesh(resolution, top).vertices,
            r.normals@ == gusset_mesh(resolution, top).normals,
            r.indices@.len() == k,
            r@.indices =~= gusset_mesh(resolution, top).indices.subrange(0, k as int),
        decreases 12 - k,
    {
        r.indices.push(pattern[k]);
        proof {
            assert(pattern@.map_values(|i: u32| i as int)[k as int] == pattern@[k as int] as int);
            assert(r@.indices =~= gusset_mesh(resolution, top).indices.subrange(0, k + 1));
        }
        k += 1;
    }
    proof {
        assert(r@.indices =~= gusset_mesh(resolution, top).indices);
        lemma_gusset_mesh(resolution, top);
    }
    r
}

/// The side wall: for each rim, large then small, and each step, the rim
/// point at the bottom and at the top; consecutive columns are joined by a
/// quad, and a last quad joins the final column back to the first.
pub fn border(resolution: u32) -> (r: MeshBuffer<FlipperPoint, FlipperNormal>)
    requires
        4 * resolution + 4 <= u32::MAX,
    ensures
        r@ == border_mesh(resolution as nat),
        r@.wf(),
        r@.nondegenerate(),
{
    let ghost n = resolution as int;
    let mut r: MeshBuffer<FlipperPoint, FlipperNormal> = MeshBuffer::empty();
    let mut c: u32 = 0;
    while c < 2 * resolution + 2
        invariant
            4 * resolution + 4 <= u32::MAX,
            n == resolution,
            0 <= c <= 2 * resolution + 2,
            r.vertices@ =~= Seq::new(2 * c as nat, |v: int| border_point(n, v)),
            r.normals@ =~= Seq::new(2 * c as nat, |v: int| border_normal(n, v)),
            r.indices@.len() == 0,
        decreases 2 * resolution + 2 - c,
    {
        let (arc, step) = if c <= resolution {
            (Arc::Large, c)
        } else {
            (Arc::Small, c - resolution - 1)
        };
        r.vertices.push(rim_point(arc, step, false));
        r.vertices.push(rim_point(arc, step, true));
        let normal = FlipperNormal::Radial { arc, step };
        r.normals.push(normal);
        r.normals.push(normal);
        proof {
            let v = 2 * c as int;
            assert(v / 2 == c && v % 2 == 0);
            assert((v + 1) / 2 == c && (v + 1) % 2 == 1);
            assert(r.vertices@ =~= Seq::new(2 * (c + 1) as nat, |v: int| border_point(n, v)));
            assert(r.normals@ =~= Seq::new(2 * (c + 1) as nat, |v: int| border_normal(n, v)));
        }
        c += 1;
    }
    let count = r.vertices.len() as u32;
    let mut i: u32 = 0;
    while i < count - 2
        invariant
            4 * resolution + 4 <= u32::MAX,
            n == resolution,
            count == 4 * resolution + 4,
            i % 2 == 0,
            0 <= i <= count - 2,
            r.vertices@ == border_mesh(resolution as nat).vertices,
            r.normals@ == border_mesh(resolution as nat).normals,
            r.indices@.len() == 3 * i,
            r@.indices =~= Seq::new(3 * i as nat, |k: int| border_index(n, k)),
        decreases count - 2 - i,
    {
        let ghost before = r@.indices;
        r.indices.push(i);
        r.indices.push(i + 1);
        r.indices.push(i + 3);
        r.indices.push(i + 3);
        r.indices.push(i + 2);
        r.indices.push(i);
        proof {
            let k = 3 * i as int;
            let q = i / 2;
            assert(k / 6 == q && k % 6 == 0);
            assert((k + 1) / 6 == q && (k + 1) % 6 == 1);
            assert((k + 2) / 6 == q && (k + 2) % 6 == 2);
            assert((k + 3) / 6 == q && (k + 3) % 6 == 3);
            assert((k + 4) / 6 == q && (k + 4) % 6 == 4);
            assert((k + 5) / 6 == q && (k + 5) % 6 == 5);
            assert forall|j: int| 0 <= j < k implies r@.indices[j] == border_index(n, j) by {
                assert(r@.indices[j] == before[j]);
            }
            assert forall|j: int| k <= j < k + 6 implies r@.indices[j] == border_index(n, j) by {
            }
            assert(r@.indices =~= Seq::new(3 * (i + 2) as nat, |k: int| border_index(n, k)));
        }
        i += 2;
    }
    let ghost before = r@.indices;
    r.indices.push(count - 2);
    r.indices.push(count - 1);
    r.indices.push(1);
    r.indices.push(1);
    r.indices.push(0);
    r.indices.push(count - 2);
    proof {
        let k = 3 * (count - 2) as int;
        let q = (count - 2) / 2;
        assert(q + 1 == 2 * n + 2);
        assert(k / 6 == q && k % 6 == 0);
        assert((k + 1) / 6 == q && (k + 1) % 6 == 1);
        assert((k + 2) / 6 == q && (k + 2) % 6 == 2);
        assert((k + 3) / 6 == q && (k + 3) % 6 == 3);
        assert((k + 4) / 6 == q && (k + 4) % 6 == 4);
        assert((k + 5) / 6 == q && (k + 5) % 6 == 5);
        assert forall|j: int| 0 <= j < k implies r@.indices[j] == border_index(n, j) by {
            assert(r@.indices[j] == before[j]);
        }
        assert forall|j: int| k <= j < k + 6 implies r@.indices[j] == border_index(n, j) by {
        }
        assert(r@.indices =~= border_mesh(resolution as nat).indices);
        lemma_border_mesh(resolution as nat);
    }
    r
}

/// Builds the paddle with `resolution` steps on each rim: the bottom cap
/// (large fan, gusset, small fan), the top cap likewise, then the side
/// wall. Every triangle names three distinct vertices of the buffer, and
/// with at least one step the surface is closed with every edge in exactly
/// two triangles, once each way.
pub fn flipper(resolution: u32) -> (r: MeshBuffer<FlipperPoint, FlipperNormal>)
    requires
        8 * resolution + 24 <= u32::MAX,
    ensures
        r@ == flipper_mesh(resolution),
        r@.wf(),
        r@.nondegenerate(),
        r@.vertices.len() == 8 * resolution + 24,
        r@.triangle_count() == 8 * resolution + 12,
        resolution >= 1 ==> r@.closed() && r@.edges_unique(),
{
    proof {
        if resolution >= 1 {
            lemma_flipper_closed(resolution);
            lemma_flipper_edges_unique(resolution);
        }
        lemma_fan_mesh(Arc::Large, resolution as nat, false);
        lemma_fan_mesh(Arc::Large, resolution as nat, true);
        lemma_gusset_mesh(resolution, false);
        lemma_gusset_mesh(resolution, true);
        lemma_cap_mesh(resolution, false);
        lemma_cap_mesh(resolution, true);
        lemma_flipper_mesh(resolution);
    }
    let mut down = fan(Arc::Large, resolution, false);
    down.merge(gusset(resolution, false));
    down.merge(fan(Arc::Small, resolution, false));

    let mut up = fan(Arc::Large, resolution, true);
    up.merge(gusset(resolution, true));
    up.merge(fan(Arc::Small, resolution, true));

    down.merge(up);
    down.merge(border(resolution));
    down
}

} // verus!
