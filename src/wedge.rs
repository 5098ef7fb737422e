//! A part of an ellipse carved into a rectangular box: the arc between two
//! angles of the first quadrant, either as a thin two-sided strip or as a
//! solid wedge closed by caps and two flat faces.
//!
//! Angles run counter-clockwise from the +X axis. The arc is cut into
//! `resolution` equal angular steps; step `s` stands at
//! `angle_min + s * (angle_max - angle_min) / resolution`.

use vstd::prelude::*;
use crate::mesh::{
    Direction, MeshBuffer, MeshModel, lemma_has_edge, lemma_merged_corners, lemma_merged_has_edge,
    lemma_merged_nondegenerate, lemma_merged_triangles, lemma_merged_wf, lemma_quad, lemma_with_positions,
    lemma_with_positions_merged, quad, turn,
};

verus! {

/// An angle of the arc: one of its two bounds, or a tessellation step.
#[derive(Clone, Copy, Debug, PartialEq, Eq, Structural)]
pub enum Angle {
    Min,
    Max,
    Step(u32),
}

/// A vertex position: `x` is the X half-axis times the cosine of `cos_at`,
/// `z` is the Z half-axis times the sine of `sin_at`, and `y` is the
/// thickness when `top` holds and 0 otherwise.
#[derive(Clone, Copy, Debug, PartialEq, Eq, Structural)]
pub struct WedgePoint {
    pub cos_at: Angle,
    pub sin_at: Angle,
    pub top: bool,
}

/// A vertex normal: a flat face's direction, or the in-plane radial
/// direction at a step (pointing away from the ellipse's centre when
/// `outward` holds, towards it otherwise).
#[derive(Clone, Copy, Debug, PartialEq, Eq, Structural)]
pub enum WedgeNormal {
    Flat(Direction),
    Radial { step: u32, outward: bool },
}

/// The point of the arc at step `s`, at the bottom or at the top.
pub open spec fn ring_point(s: u32, top: bool) -> WedgePoint {
    WedgePoint { cos_at: Angle::Step(s), sin_at: Angle::Step(s), top }
}

/// The corner of the box that the arc is carved from: X at the lower angle,
/// Z at the upper one.
pub open spec fn box_corner(top: bool) -> WedgePoint {
    WedgePoint { cos_at: Angle::Min, sin_at: Angle::Max, top }
}

/// Panel `i` of the strip: the quad between steps `i` and `i + 1`. With
/// `revert` it faces away from the centre, otherwise towards it.
pub open spec fn panel(i: u32, revert: bool) -> MeshModel<WedgePoint, WedgeNormal> {
    MeshModel {
        vertices: seq![
            ring_point(i, false),
            ring_point(i, true),
            ring_point((i + 1) as u32, true),
            ring_point((i + 1) as u32, false),
        ],
        normals: seq![
            WedgeNormal::Radial { step: i, outward: revert },
            WedgeNormal::Radial { step: i, outward: revert },
            WedgeNormal::Radial { step: (i + 1) as u32, outward: revert },
            WedgeNormal::Radial { step: (i + 1) as u32, outward: revert },
        ],
        indices: if revert {
            seq![0, 1, 2, 2, 3, 0]
        } else {
            seq![0, 2, 1, 2, 0, 3]
        },
    }
}

/// The first `n` panels merged in order.
pub open spec fn strip_mesh(n: nat, revert: bool) -> MeshModel<WedgePoint, WedgeNormal>
    decreases n,
{
    if n == 0 {
        MeshModel::empty()
    } else {
        strip_mesh((n - 1) as nat, revert).merged(panel((n - 1) as u32, revert))
    }
}

/// Index `k` of a cap's fan: triangle `k / 3` joins the box corner to two
/// consecutive arc points, ordered so that the top faces up and the bottom
/// faces down.
pub open spec fn cap_index(k: int, top: bool) -> int {
    let t = k / 3;
    if k % 3 == 0 {
        0
    } else if (k % 3 == 1) == top {
        t + 1
    } else {
        t + 2
    }
}

/// The normal of a cap.
pub open spec fn cap_normal(top: bool) -> WedgeNormal {
    WedgeNormal::Flat(if top { Direction::YPos } else { Direction::YNeg })
}

/// The top or bottom cap: a fan from the box corner over the `n + 1` arc
/// points.
pub open spec fn cap_mesh(n: nat, top: bool) -> MeshModel<WedgePoint, WedgeNormal> {
    MeshModel {
        vertices: seq![box_corner(top)] + Seq::new(n + 1, |s: int| ring_point(s as u32, top)),
        normals: Seq::new(n + 2, |j: int| cap_normal(top)),
        indices: Seq::new(3 * n, |k: int| cap_index(k, top)),
    }
}

/// The flat back face, along the upper angle.
pub open spec fn back_mesh() -> MeshModel<WedgePoint, WedgeNormal> {
    quad(
        seq![
            WedgePoint { cos_at: Angle::Min, sin_at: Angle::Max, top: false },
            WedgePoint { cos_at: Angle::Min, sin_at: Angle::Max, top: true },
            WedgePoint { cos_at: Angle::Max, sin_at: Angle::Max, top: true },
            WedgePoint { cos_at: Angle::Max, sin_at: Angle::Max, top: false },
        ],
        WedgeNormal::Flat(Direction::ZPos),
    )
}

/// The flat side face, along the lower angle.
pub open spec fn side_mesh() -> MeshModel<WedgePoint, WedgeNormal> {
    quad(
        seq![
            WedgePoint { cos_at: Angle::Min, sin_at: Angle::Min, top: false },
            WedgePoint { cos_at: Angle::Min, sin_at: Angle::Min, top: true },
            WedgePoint { cos_at: Angle::Min, sin_at: Angle::Max, top: true },
            WedgePoint { cos_at: Angle::Min, sin_at: Angle::Max, top: false },
        ],
        WedgeNormal::Flat(Direction::XPos),
    )
}

/// The wedge: the strip facing the centre, then either the two caps, the
/// back and the side (a solid), or the same strip facing out (a thin wall).
pub open spec fn wedge_mesh(n: nat, rectangle: bool) -> MeshModel<WedgePoint, WedgeNormal> {
    if rectangle {
        strip_mesh(n, false).merged(cap_mesh(n, true)).merged(cap_mesh(n, false)).merged(
            back_mesh(),
        ).merged(side_mesh())
    } else {
        strip_mesh(n, false).merged(strip_mesh(n, true))
    }
}

/// Number of vertices of a wedge with `n` steps.
pub open spec fn wedge_vertex_count(n: int, rectangle: bool) -> int {
    if rectangle {
        6 * n + 12
    } else {
        8 * n
    }
}

/// Number of triangles of a wedge with `n` steps.
pub open spec fn wedge_triangle_count(n: int, rectangle: bool) -> int {
    if rectangle {
        4 * n + 4
    } else {
        4 * n
    }
}

/// Where a point built from the two bounds sits in the wedge's bounding
/// box, as 0 (low) or 1 (high) on each axis. Over the first quadrant the
/// cosine falls and the sine rises, so the lower angle gives the larger X
/// and the smaller Z.
pub open spec fn box_point(p: WedgePoint) -> (int, int, int) {
    (
        if p.cos_at == Angle::Min { 1int } else { 0int },
        if p.top { 1int } else { 0int },
        if p.sin_at == Angle::Max { 1int } else { 0int },
    )
}

/// Both triangles of the back and of the side face turn counter-clockwise
/// as seen from the face's normal, and that normal points out of the
/// wedge: the back stands at the largest Z and faces +Z, the side at the
/// largest X and faces +X. Stretching each axis by a positive amount keeps
/// the signs, so this holds whenever the two angles differ.
pub proof fn lemma_flat_faces_wound()
    ensures
        forall|t: int|
            0 <= t < 2 ==> {
                let (a, b, c) = #[trigger] back_mesh().triangle(t);
                let m = back_mesh();
                turn(box_point(m.vertices[a]), box_point(m.vertices[b]), box_point(m.vertices[c]))
                    == Direction::ZPos.unit()
            },
        forall|t: int|
            0 <= t < 2 ==> {
                let (a, b, c) = #[trigger] side_mesh().triangle(t);
                let m = side_mesh();
                turn(box_point(m.vertices[a]), box_point(m.vertices[b]), box_point(m.vertices[c]))
                    == Direction::XPos.unit()
            },
{
    lemma_quad(back_mesh().vertices, WedgeNormal::Flat(Direction::ZPos));
    lemma_quad(side_mesh().vertices, WedgeNormal::Flat(Direction::XPos));
    assert forall|t: int| 0 <= t < 2 implies {
        let (a, b, c) = #[trigger] back_mesh().triangle(t);
        let m = back_mesh();
        turn(box_point(m.vertices[a]), box_point(m.vertices[b]), box_point(m.vertices[c]))
            == Direction::ZPos.unit()
    } by {
        if t == 0 {} else {}
    }
    assert forall|t: int| 0 <= t < 2 implies {
        let (a, b, c) = #[trigger] side_mesh().triangle(t);
        let m = side_mesh();
        turn(box_point(m.vertices[a]), box_point(m.vertices[b]), box_point(m.vertices[c]))
            == Direction::XPos.unit()
    } by {
        if t == 0 {} else {}
    }
}

proof fn lemma_panel(i: u32, revert: bool)
    ensures
        panel(i, revert).wf(),
        panel(i, revert).nondegenerate(),
        panel(i, revert).vertices.len() == 4,
        panel(i, revert).indices.len() == 6,
{
    let p = panel(i, revert);
    assert(p.triangle(0) == p.triangle(0));
    assert(p.triangle(1) == p.triangle(1));
}

proof fn lemma_strip_mesh(n: nat, revert: bool)
    requires
        4 * n <= u32::MAX,
    ensures
        strip_mesh(n, revert).wf(),
        strip_mesh(n, revert).nondegenerate(),
        strip_mesh(n, revert).vertices.len() == 4 * n,
        strip_mesh(n, revert).indices.len() == 6 * n,
    decreases n,
{
    if n > 0 {
        let prev = strip_mesh((n - 1) as nat, revert);
        let p = panel((n - 1) as u32, revert);
        lemma_strip_mesh((n - 1) as nat, revert);
        lemma_panel((n - 1) as u32, revert);
        lemma_merged_wf(prev, p);
        lemma_merged_nondegenerate(prev, p);
    }
}

proof fn lemma_cap_mesh(n: nat, top: bool)
    requires
        n + 2 <= u32::MAX,
    ensures
        cap_mesh(n, top).wf(),
        cap_mesh(n, top).nondegenerate(),
        cap_mesh(n, top).vertices.len() == n + 2,
        cap_mesh(n, top).indices.len() == 3 * n,
{
    let m = cap_mesh(n, top);
    assert forall|k: int| 0 <= k < m.indices.len() implies 0 <= #[trigger] m.indices[k]
        < m.vertices.len() by {
        assert(k / 3 < n);
    }
    assert forall|t: int| 0 <= t < m.triangle_count() implies {
        let (a, b, c) = #[trigger] m.triangle(t);
        a != b && b != c && a != c
    } by {
        assert((3 * t) / 3 == t && (3 * t) % 3 == 0);
        assert((3 * t + 1) / 3 == t && (3 * t + 1) % 3 == 1);
        assert((3 * t + 2) / 3 == t && (3 * t + 2) % 3 == 2);
    }
}

proof fn lemma_flat_faces()
    ensures
        back_mesh().wf(),
        back_mesh().nondegenerate(),
        back_mesh().vertices.len() == 4,
        back_mesh().indices.len() == 6,
        side_mesh().wf(),
        side_mesh().nondegenerate(),
        side_mesh().vertices.len() == 4,
        side_mesh().indices.len() == 6,
{
    lemma_quad(back_mesh().vertices, WedgeNormal::Flat(Direction::ZPos));
    lemma_quad(side_mesh().vertices, WedgeNormal::Flat(Direction::XPos));
}

/// Corners of triangle `h` (0 or 1) of panel `i`.
pub open spec fn panel_corners(i: u32, revert: bool, h: int) -> (WedgePoint, WedgePoint, WedgePoint) {
    let (a, b, c, d) = (
        ring_point(i, false),
        ring_point(i, true),
        ring_point((i + 1) as u32, true),
        ring_point((i + 1) as u32, false),
    );
    if revert {
        if h == 0 { (a, b, c) } else { (c, d, a) }
    } else {
        if h == 0 { (a, c, b) } else { (c, a, d) }
    }
}

proof fn lemma_strip_corners(n: nat, revert: bool)
    requires
        4 * n <= u32::MAX,
    ensures
        forall|i: int|
            0 <= i < n ==> #[trigger] strip_mesh(n, revert).corners(2 * i) == panel_corners(
                i as u32,
                revert,
                0,
            ),
        forall|i: int|
            0 <= i < n ==> #[trigger] strip_mesh(n, revert).corners(2 * i + 1) == panel_corners(
                i as u32,
                revert,
                1,
            ),
    decreases n,
{
    if n > 0 {
        let prev = strip_mesh((n - 1) as nat, revert);
        let p = panel((n - 1) as u32, revert);
        lemma_strip_corners((n - 1) as nat, revert);
        lemma_strip_mesh((n - 1) as nat, revert);
        lemma_panel((n - 1) as u32, revert);
        lemma_merged_corners(prev, p);
        lemma_merged_triangles(prev, p);
        assert(p.corners(0) == panel_corners((n - 1) as u32, revert, 0)) by {
            reveal(MeshModel::corners);
        }
        assert(p.corners(1) == panel_corners((n - 1) as u32, revert, 1)) by {
            reveal(MeshModel::corners);
        }
        let m = strip_mesh(n, revert);
        assert(m.corners(2 * (n - 1) + 0) == p.corners(0));
        assert(m.corners(2 * (n - 1) + 1) == p.corners(1));
        assert forall|i: int| 0 <= i < n implies #[trigger] m.corners(2 * i) == panel_corners(
            i as u32,
            revert,
            0,
        ) by {
            if i < n - 1 {
                assert(m.corners(2 * i) == prev.corners(2 * i));
            }
        }
        assert forall|i: int| 0 <= i < n implies #[trigger] m.corners(2 * i + 1) == panel_corners(
            i as u32,
            revert,
            1,
        ) by {
            if i < n - 1 {
                assert(m.corners(2 * i + 1) == prev.corners(2 * i + 1));
            }
        }
    }
}

/// Every edge of the strip's triangle `u`, run the other way, is an edge of
/// `f`, as long as `f` holds every edge of the strip facing the other way.
proof fn lemma_strip_triangle_returned(
    f: MeshModel<WedgePoint, WedgeNormal>,
    n: u32,
    revert: bool,
    facing_back: bool,
    u: int,
)
    requires
        4 * n <= u32::MAX,
        0 <= u < 2 * n,
        facing_back == !revert,
        forall|p: WedgePoint, q: WedgePoint|
            #[trigger] strip_mesh(n as nat, facing_back).has_edge(p, q) ==> f.has_edge(p, q),
    ensures
        ({
            let (x, y, z) = strip_mesh(n as nat, revert).corners(u);
            f.has_edge(y, x) && f.has_edge(z, y) && f.has_edge(x, z)
        }),
{
    let this = strip_mesh(n as nat, revert);
    let other = strip_mesh(n as nat, !revert);
    lemma_strip_mesh(n as nat, !revert);
    lemma_strip_corners(n as nat, revert);
    lemma_strip_corners(n as nat, !revert);
    let i = u / 2;
    let h = u % 2;
    assert(u == 2 * i + h);
    assert(this.corners(2 * i) == panel_corners(i as u32, revert, 0));
    assert(this.corners(2 * i + 1) == panel_corners(i as u32, revert, 1));
    assert(other.corners(2 * i) == panel_corners(i as u32, !revert, 0));
    assert(other.corners(2 * i + 1) == panel_corners(i as u32, !revert, 1));
    let (x, y, z) = this.corners(u);
    lemma_has_edge(other, 2 * i + h, y, x);
    lemma_has_edge(other, 2 * i + h, z, y);
    lemma_has_edge(other, 2 * i + h, x, z);
}

/// Each edge of a triangle with corners `tri`, run the other way, is an
/// edge of `m`.
spec fn edges_returned(m: MeshModel<WedgePoint, WedgeNormal>, tri: (WedgePoint, WedgePoint, WedgePoint)) -> bool {
    let (x, y, z) = tri;
    m.has_edge(y, x) && m.has_edge(z, y) && m.has_edge(x, z)
}

proof fn lemma_closed_from_strips(
    f: MeshModel<WedgePoint, WedgeNormal>,
    n: u32,
    inner: MeshModel<WedgePoint, WedgeNormal>,
    outer: MeshModel<WedgePoint, WedgeNormal>,
)
    requires
        f.triangle_count() == 4 * n,
        forall|t: int| 0 <= t < 2 * n ==> #[trigger] f.corners(t) == inner.corners(t),
        forall|t: int| 0 <= t < 2 * n ==> #[trigger] f.corners(2 * n + t) == outer.corners(t),
        forall|u: int| 0 <= u < 2 * n ==> edges_returned(f, #[trigger] inner.corners(u)),
        forall|u: int| 0 <= u < 2 * n ==> edges_returned(f, #[trigger] outer.corners(u)),
    ensures
        f.closed(),
{
    assert forall|t: int| 0 <= t < f.triangle_count() implies {
        let (x, y, z) = #[trigger] f.corners(t);
        f.has_edge(y, x) && f.has_edge(z, y) && f.has_edge(x, z)
    } by {
        if t >= 2 * n {
            let u = t - 2 * n;
            assert(f.corners(2 * n + u) == outer.corners(u));
        }
    }
}

/// The two sides of the thin wall match: the outer strip runs every
/// triangle of the inner strip the other way round, so each edge of one
/// side is run back by the other. The wall has no thickness; it is an open
/// strip seen from both sides, not a solid.
pub proof fn lemma_thin_wall_sides_match(n: u32)
    requires
        8 * n <= u32::MAX,
    ensures
        wedge_mesh(n as nat, false).closed(),
{
    let inner = strip_mesh(n as nat, false);
    let outer = strip_mesh(n as nat, true);
    let f = inner.merged(outer);
    lemma_strip_mesh(n as nat, false);
    lemma_strip_mesh(n as nat, true);
    lemma_merged_corners(inner, outer);
    lemma_merged_has_edge(inner, outer);
    lemma_merged_triangles(inner, outer);
    assert forall|u: int| 0 <= u < 2 * n implies edges_returned(f, #[trigger] inner.corners(u)) by {
        lemma_strip_triangle_returned(f, n, false, true, u);
    }
    assert forall|u: int| 0 <= u < 2 * n implies edges_returned(f, #[trigger] outer.corners(u)) by {
        lemma_strip_triangle_returned(f, n, true, false, u);
    }
    lemma_closed_from_strips(f, n, inner, outer);
}

/// The angle a tessellation step stands at, with the arc's first step named
/// as the lower bound and its last step (`n`) as the upper one.
pub open spec fn settle(n: nat, a: Angle) -> Angle {
    match a {
        Angle::Step(s) => if s == 0 {
            Angle::Min
        } else if s == n {
            Angle::Max
        } else {
            a
        },
        _ => a,
    }
}

/// A position with its angles settled as above.
pub open spec fn settled(n: nat, p: WedgePoint) -> WedgePoint {
    WedgePoint { cos_at: settle(n, p.cos_at), sin_at: settle(n, p.sin_at), top: p.top }
}

/// `settled` as a function of the position alone.
pub open spec fn settler(n: nat) -> spec_fn(WedgePoint) -> WedgePoint {
    |p: WedgePoint| settled(n, p)
}

/// The arc point at step `i`, settled.
pub open spec fn arc_at(n: nat, i: int, top: bool) -> WedgePoint {
    settled(n, ring_point(i as u32, top))
}

proof fn lemma_cap_corners(n: nat, top: bool)
    requires
        n + 2 <= u32::MAX,
    ensures
        forall|t: int|
            0 <= t < n ==> #[trigger] cap_mesh(n, top).corners(t) == if top {
                (box_corner(top), ring_point(t as u32, top), ring_point((t + 1) as u32, top))
            } else {
                (box_corner(top), ring_point((t + 1) as u32, top), ring_point(t as u32, top))
            },
{
    let m = cap_mesh(n, top);
    reveal(MeshModel::corners);
    assert forall|t: int| 0 <= t < n implies #[trigger] m.corners(t) == if top {
        (box_corner(top), ring_point(t as u32, top), ring_point((t + 1) as u32, top))
    } else {
        (box_corner(top), ring_point((t + 1) as u32, top), ring_point(t as u32, top))
    } by {
        assert((3 * t) / 3 == t && (3 * t) % 3 == 0);
        assert((3 * t + 1) / 3 == t && (3 * t + 1) % 3 == 1);
        assert((3 * t + 2) / 3 == t && (3 * t + 2) % 3 == 2);
        assert(m.vertices[t + 1] == ring_point(t as u32, top));
        assert(m.vertices[t + 2] == ring_point((t + 1) as u32, top));
    }
}

/// The pieces of the solid wedge with their positions settled.
pub open spec fn solid_piece(n: nat, k: int) -> MeshModel<WedgePoint, WedgeNormal> {
    let m = if k == 0 {
        strip_mesh(n, false)
    } else if k == 1 {
        cap_mesh(n, true)
    } else if k == 2 {
        cap_mesh(n, false)
    } else if k == 3 {
        back_mesh()
    } else {
        side_mesh()
    };
    m.with_positions(settler(n))
}

/// The corners of every triangle of the settled pieces.
proof fn lemma_solid_corners(n: u32)
    requires
        1 <= n,
        6 * n + 12 <= u32::MAX,
    ensures
        ({
            let k = n as nat;
            let (kb, kt) = (box_corner(false), box_corner(true));
            &&& forall|i: int|
                0 <= i < n ==> #[trigger] solid_piece(k, 0).corners(2 * i) == (
                    arc_at(k, i, false),
                    arc_at(k, i + 1, true),
                    arc_at(k, i, true),
                )
            &&& forall|i: int|
                0 <= i < n ==> #[trigger] solid_piece(k, 0).corners(2 * i + 1) == (
                    arc_at(k, i + 1, true),
                    arc_at(k, i, false),
                    arc_at(k, i + 1, false),
                )
            &&& forall|t: int|
                0 <= t < n ==> #[trigger] solid_piece(k, 1).corners(t) == (
                    kt,
                    arc_at(k, t, true),
                    arc_at(k, t + 1, true),
                )
            &&& forall|t: int|
                0 <= t < n ==> #[trigger] solid_piece(k, 2).corners(t) == (
                    kb,
                    arc_at(k, t + 1, false),
                    arc_at(k, t, false),
                )
            &&& solid_piece(k, 3).corners(0) == (kb, kt, arc_at(k, k as int, true))
            &&& solid_piece(k, 3).corners(1) == (arc_at(k, k as int, true), arc_at(k, k as int, false), kb)
            &&& solid_piece(k, 4).corners(0) == (arc_at(k, 0, false), arc_at(k, 0, true), kt)
            &&& solid_piece(k, 4).corners(1) == (kt, kb, arc_at(k, 0, false))
            &&& solid_piece(k, 0).triangle_count() == 2 * n
            &&& solid_piece(k, 1).triangle_count() == n
            &&& solid_piece(k, 2).triangle_count() == n
            &&& solid_piece(k, 3).triangle_count() == 2
            &&& solid_piece(k, 4).triangle_count() == 2
        }),
{
    let k = n as nat;
    let g = settler(k);
    lemma_strip_mesh(k, false);
    lemma_strip_corners(k, false);
    lemma_cap_mesh(k, true);
    lemma_cap_mesh(k, false);
    lemma_cap_corners(k, true);
    lemma_cap_corners(k, false);
    lemma_flat_faces();
    lemma_with_positions(strip_mesh(k, false), g);
    lemma_with_positions(cap_mesh(k, true), g);
    lemma_with_positions(cap_mesh(k, false), g);
    lemma_with_positions(back_mesh(), g);
    lemma_with_positions(side_mesh(), g);
    assert(settle(k, Angle::Step(n)) == Angle::Max);
    assert(settle(k, Angle::Step(0)) == Angle::Min);
    assert(settled(k, box_corner(true)) == box_corner(true));
    assert(settled(k, box_corner(false)) == box_corner(false));
    assert forall|i: int| 0 <= i < n implies #[trigger] solid_piece(k, 0).corners(2 * i) == (
        arc_at(k, i, false),
        arc_at(k, i + 1, true),
        arc_at(k, i, true),
    ) && solid_piece(k, 0).corners(2 * i + 1) == (
        arc_at(k, i + 1, true),
        arc_at(k, i, false),
        arc_at(k, i + 1, false),
    ) by {
        assert(strip_mesh(k, false).corners(2 * i) == panel_corners(i as u32, false, 0));
        assert(strip_mesh(k, false).corners(2 * i + 1) == panel_corners(i as u32, false, 1));
    }
    assert forall|t: int| 0 <= t < n implies #[trigger] solid_piece(k, 1).corners(t) == (
        box_corner(true),
        arc_at(k, t, true),
        arc_at(k, t + 1, true),
    ) by {
        assert(cap_mesh(k, true).corners(t) == cap_mesh(k, true).corners(t));
    }
    assert forall|t: int| 0 <= t < n implies #[trigger] solid_piece(k, 2).corners(t) == (
        box_corner(false),
        arc_at(k, t + 1, false),
        arc_at(k, t, false),
    ) by {
        assert(cap_mesh(k, false).corners(t) == cap_mesh(k, false).corners(t));
    }
    reveal(MeshModel::corners);
    assert(back_mesh().corners(0) == back_mesh().corners(0));
    assert(back_mesh().corners(1) == back_mesh().corners(1));
    assert(side_mesh().corners(0) == side_mesh().corners(0));
    assert(side_mesh().corners(1) == side_mesh().corners(1));
}

/// Every edge of each settled piece is an edge of `f`.
spec fn solid_covers(f: MeshModel<WedgePoint, WedgeNormal>, n: nat) -> bool {
    forall|k: int, p: WedgePoint, q: WedgePoint|
        0 <= k < 5 && #[trigger] solid_piece(n, k).has_edge(p, q) ==> f.has_edge(p, q)
}

proof fn lemma_solid_strip_returned(f: MeshModel<WedgePoint, WedgeNormal>, n: u32, u: int)
    requires
        solid_covers(f, n as nat),
        1 <= n,
        6 * n + 12 <= u32::MAX,
        0 <= u < 2 * n,
    ensures
        edges_returned(f, solid_piece(n as nat, 0).corners(u)),
{
    let k = n as nat;
    lemma_solid_corners(n);
    let (s, top, bottom, back, side) = (
        solid_piece(k, 0),
        solid_piece(k, 1),
        solid_piece(k, 2),
        solid_piece(k, 3),
        solid_piece(k, 4),
    );
    let i = u / 2;
    let (a, b, c, d) = (arc_at(k, i, false), arc_at(k, i, true), arc_at(k, i + 1, true), arc_at(k, i + 1, false));
    assert(s.corners(2 * i) == s.corners(2 * i));
    assert(s.corners(2 * i + 1) == s.corners(2 * i + 1));
    if u % 2 == 0 {
        assert(u == 2 * i);
        lemma_has_edge(s, 2 * i + 1, c, a);
        assert(top.corners(i) == top.corners(i));
        lemma_has_edge(top, i, b, c);
        if i >= 1 {
            assert(s.corners(2 * (i - 1) + 1) == s.corners(2 * (i - 1) + 1));
            lemma_has_edge(s, 2 * (i - 1) + 1, a, b);
        } else {
            lemma_has_edge(side, 0, a, b);
        }
    } else {
        assert(u == 2 * i + 1);
        lemma_has_edge(s, 2 * i, a, c);
        assert(bottom.corners(i) == bottom.corners(i));
        lemma_has_edge(bottom, i, d, a);
        if i + 1 < n {
            assert(s.corners(2 * (i + 1)) == s.corners(2 * (i + 1)));
            lemma_has_edge(s, 2 * (i + 1), c, d);
        } else {
            lemma_has_edge(back, 1, c, d);
        }
    }
}

proof fn lemma_solid_cap_returned(f: MeshModel<WedgePoint, WedgeNormal>, n: u32, top: bool, t: int)
    requires
        solid_covers(f, n as nat),
        1 <= n,
        6 * n + 12 <= u32::MAX,
        0 <= t < n,
    ensures
        edges_returned(f, solid_piece(n as nat, if top { 1 } else { 2 }).corners(t)),
{
    let k = n as nat;
    lemma_solid_corners(n);
    let (s, up, down, back, side) = (
        solid_piece(k, 0),
        solid_piece(k, 1),
        solid_piece(k, 2),
        solid_piece(k, 3),
        solid_piece(k, 4),
    );
    let (kb, kt) = (box_corner(false), box_corner(true));
    if top {
        let (r0, r1) = (arc_at(k, t, true), arc_at(k, t + 1, true));
        assert(s.corners(2 * t) == s.corners(2 * t));
        lemma_has_edge(s, 2 * t, r1, r0);
        if t >= 1 {
            assert(up.corners(t - 1) == up.corners(t - 1));
            lemma_has_edge(up, t - 1, r0, kt);
        } else {
            lemma_has_edge(side, 0, r0, kt);
        }
        if t + 1 < n {
            assert(up.corners(t + 1) == up.corners(t + 1));
            lemma_has_edge(up, t + 1, kt, r1);
        } else {
            lemma_has_edge(back, 0, kt, r1);
        }
        assert(up.corners(t) == up.corners(t));
    } else {
        let (r0, r1) = (arc_at(k, t, false), arc_at(k, t + 1, false));
        assert(s.corners(2 * t + 1) == s.corners(2 * t + 1));
        lemma_has_edge(s, 2 * t + 1, r0, r1);
        if t + 1 < n {
            assert(down.corners(t + 1) == down.corners(t + 1));
            lemma_has_edge(down, t + 1, r1, kb);
        } else {
            lemma_has_edge(back, 1, r1, kb);
        }
        if t >= 1 {
            assert(down.corners(t - 1) == down.corners(t - 1));
            lemma_has_edge(down, t - 1, kb, r0);
        } else {
            lemma_has_edge(side, 1, kb, r0);
        }
        assert(down.corners(t) == down.corners(t));
    }
}

proof fn lemma_solid_flat_returned(f: MeshModel<WedgePoint, WedgeNormal>, n: u32, j: int, u: int)
    requires
        solid_covers(f, n as nat),
        1 <= n,
        6 * n + 12 <= u32::MAX,
        3 <= j < 5,
        0 <= u < 2,
    ensures
        edges_returned(f, solid_piece(n as nat, j).corners(u)),
{
    let k = n as nat;
    lemma_solid_corners(n);
    let (s, up, down, back, side) = (
        solid_piece(k, 0),
        solid_piece(k, 1),
        solid_piece(k, 2),
        solid_piece(k, 3),
        solid_piece(k, 4),
    );
    let (kb, kt) = (box_corner(false), box_corner(true));
    let last = n - 1int;
    let (nt, nb) = (arc_at(k, k as int, true), arc_at(k, k as int, false));
    let (zt, zb) = (arc_at(k, 0, true), arc_at(k, 0, false));
    if j == 3 {
        if u == 0 {
            lemma_has_edge(side, 1, kt, kb);
            assert(up.corners(last) == up.corners(last));
            lemma_has_edge(up, last, nt, kt);
            lemma_has_edge(back, 1, kb, nt);
        } else {
            assert(s.corners(2 * last + 1) == s.corners(2 * last + 1));
            lemma_has_edge(s, 2 * last + 1, nb, nt);
            assert(down.corners(last) == down.corners(last));
            lemma_has_edge(down, last, kb, nb);
            lemma_has_edge(back, 0, nt, kb);
        }
    } else {
        if u == 0 {
            assert(s.corners(2 * 0int) == s.corners(2 * 0int));
            lemma_has_edge(s, 0, zt, zb);
            assert(up.corners(0) == up.corners(0));
            lemma_has_edge(up, 0, kt, zt);
            lemma_has_edge(side, 1, zb, kt);
        } else {
            lemma_has_edge(back, 0, kb, kt);
            assert(down.corners(0) == down.corners(0));
            lemma_has_edge(down, 0, zb, kb);
            lemma_has_edge(side, 0, kt, zb);
        }
    }
}

proof fn lemma_closed_from_solid(f: MeshModel<WedgePoint, WedgeNormal>, n: u32)
    requires
        solid_covers(f, n as nat),
        1 <= n,
        6 * n + 12 <= u32::MAX,
        f.triangle_count() == 4 * n + 4,
        forall|t: int| 0 <= t < 2 * n ==> #[trigger] f.corners(t) == solid_piece(n as nat, 0).corners(t),
        forall|t: int| 0 <= t < n ==> #[trigger] f.corners(2 * n + t) == solid_piece(n as nat, 1).corners(t),
        forall|t: int| 0 <= t < n ==> #[trigger] f.corners(3 * n + t) == solid_piece(n as nat, 2).corners(t),
        forall|t: int| 0 <= t < 2 ==> #[trigger] f.corners(4 * n + t) == solid_piece(n as nat, 3).corners(t),
        forall|t: int|
            0 <= t < 2 ==> #[trigger] f.corners((4 * n + 2) + t) == solid_piece(n as nat, 4).corners(t),
    ensures
        f.closed(),
{
    assert forall|t: int| 0 <= t < f.triangle_count() implies {
        let (x, y, z) = #[trigger] f.corners(t);
        f.has_edge(y, x) && f.has_edge(z, y) && f.has_edge(x, z)
    } by {
        if t < 2 * n {
            lemma_solid_strip_returned(f, n, t);
        } else if t < 3 * n {
            let u = t - 2 * n;
            assert(f.corners(2 * n + u) == solid_piece(n as nat, 1).corners(u));
            lemma_solid_cap_returned(f, n, true, u);
        } else if t < 4 * n {
            let u = t - 3 * n;
            assert(f.corners(3 * n + u) == solid_piece(n as nat, 2).corners(u));
            lemma_solid_cap_returned(f, n, false, u);
        } else if t < 4 * n + 2 {
            let u = t - 4 * n;
            assert(f.corners(4 * n + u) == solid_piece(n as nat, 3).corners(u));
            lemma_solid_flat_returned(f, n, 3, u);
        } else {
            let u = t - (4 * n + 2);
            assert(f.corners((4 * n + 2) + u) == solid_piece(n as nat, 4).corners(u));
            lemma_solid_flat_returned(f, n, 4, u);
        }
    }
}

/// The solid wedge is closed once the arc's first and last steps are taken
/// for the points they stand at: step 0 is the lower angle and step
/// `resolution` the upper one. Then every edge of every triangle is run the
/// other way by another triangle: the strip, both caps, the back and the
/// side meet without a border and agree on which side is outside.
pub proof fn lemma_solid_wedge_closed(n: u32)
    requires
        1 <= n,
        6 * n + 12 <= u32::MAX,
    ensures
        wedge_mesh(n as nat, true).with_positions(settler(n as nat)).closed(),
{
    let k = n as nat;
    let g = settler(k);
    let (s, top, bottom, back, side) = (
        strip_mesh(k, false),
        cap_mesh(k, true),
        cap_mesh(k, false),
        back_mesh(),
        side_mesh(),
    );
    lemma_wedge_mesh(n, true);
    lemma_strip_mesh(k, false);
    lemma_cap_mesh(k, true);
    lemma_cap_mesh(k, false);
    lemma_flat_faces();
    lemma_with_positions_merged(s, top, g);
    lemma_with_positions_merged(s.merged(top), bottom, g);
    lemma_with_positions_merged(s.merged(top).merged(bottom), back, g);
    lemma_with_positions_merged(s.merged(top).merged(bottom).merged(back), side, g);
    lemma_solid_corners(n);
    let (p0, p1, p2, p3, p4) = (
        solid_piece(k, 0),
        solid_piece(k, 1),
        solid_piece(k, 2),
        solid_piece(k, 3),
        solid_piece(k, 4),
    );
    lemma_with_positions(s, g);
    lemma_with_positions(top, g);
    lemma_with_positions(bottom, g);
    lemma_with_positions(back, g);
    lemma_with_positions(side, g);
    let q1 = p0.merged(p1);
    let q2 = q1.merged(p2);
    let q3 = q2.merged(p3);
    let f = q3.merged(p4);
    lemma_merged_wf(p0, p1);
    lemma_merged_wf(q1, p2);
    lemma_merged_wf(q2, p3);
    lemma_merged_triangles(p0, p1);
    lemma_merged_triangles(q1, p2);
    lemma_merged_triangles(q2, p3);
    lemma_merged_triangles(q3, p4);
    lemma_merged_corners(p0, p1);
    lemma_merged_corners(q1, p2);
    lemma_merged_corners(q2, p3);
    lemma_merged_corners(q3, p4);
    lemma_merged_has_edge(p0, p1);
    lemma_merged_has_edge(q1, p2);
    lemma_merged_has_edge(q2, p3);
    lemma_merged_has_edge(q3, p4);
    assert forall|j: int, p: WedgePoint, q: WedgePoint|
        0 <= j < 5 && #[trigger] solid_piece(k, j).has_edge(p, q) implies f.has_edge(p, q) by {
        if j == 0 {
            assert(q1.has_edge(p, q));
        } else if j == 1 {
            assert(q1.has_edge(p, q));
        } else if j == 2 {
            assert(q2.has_edge(p, q));
        } else if j == 3 {
            assert(q3.has_edge(p, q));
        }
    }
    assert forall|t: int| 0 <= t < 2 * n implies #[trigger] f.corners(t) == p0.corners(t) by {
        assert(q1.corners(t) == p0.corners(t));
        assert(q2.corners(t) == q1.corners(t));
        assert(q3.corners(t) == q2.corners(t));
    }
    assert forall|t: int| 0 <= t < n implies #[trigger] f.corners(2 * n + t) == p1.corners(t) by {
        assert(q1.corners(2 * n + t) == p1.corners(t));
        assert(q2.corners(2 * n + t) == q1.corners(2 * n + t));
        assert(q3.corners(2 * n + t) == q2.corners(2 * n + t));
    }
    assert forall|t: int| 0 <= t < n implies #[trigger] f.corners(3 * n + t) == p2.corners(t) by {
        assert(q2.corners(3 * n + t) == p2.corners(t));
        assert(q3.corners(3 * n + t) == q2.corners(3 * n + t));
    }
    assert forall|t: int| 0 <= t < 2 implies #[trigger] f.corners(4 * n + t) == p3.corners(t) by {
        assert(q3.corners(4 * n + t) == p3.corners(t));
    }
    assert forall|t: int| 0 <= t < 2 implies #[trigger] f.corners((4 * n + 2) + t) == p4.corners(t) by {
    }
    lemma_closed_from_solid(f, n);
}

fn ring(s: u32, top: bool) -> (r: WedgePoint)
    ensures
        r == ring_point(s, top),
{
    WedgePoint { cos_at: Angle::Step(s), sin_at: Angle::Step(s), top }
}

/// The strip of `resolution` panels along the arc, at both heights.
/// Without `revert` its triangles face the ellipse's centre and its normals
/// point towards it; with `revert` both face away.
pub fn arc_strip(resolution: u32, revert: bool) -> (r: MeshBuffer<WedgePoint, WedgeNormal>)
    requires
        4 * resolution <= u32::MAX,
    ensures
        r@ == strip_mesh(resolution as nat, revert),
        r@.wf(),
        r@.nondegenerate(),
        r@.vertices.len() == 4 * resolution,
        r@.indices.len() == 6 * resolution,
{
    let mut r: MeshBuffer<WedgePoint, WedgeNormal> = MeshBuffer::empty();
    let mut i: u32 = 0;
    while i < resolution
        invariant
            4 * resolution <= u32::MAX,
            0 <= i <= resolution,
            r@ == strip_mesh(i as nat, revert),
        decreases resolution - i,
    {
        proof {
            lemma_strip_mesh(i as nat, revert);
        }
        let ghost before = r@;
        r.vertices.push(ring(i, false));
        r.vertices.push(ring(i, true));
        r.vertices.push(ring(i + 1, true));
        r.vertices.push(ring(i + 1, false));
        let here = WedgeNormal::Radial { step: i, outward: revert };
        let next = WedgeNormal::Radial { step: i + 1, outward: revert };
        r.normals.push(here);
        r.normals.push(here);
        r.normals.push(next);
        r.normals.push(next);
        let base = 4 * i;
        if revert {
            r.indices.push(base);
            r.indices.push(base + 1);
            r.indices.push(base + 2);
            r.indices.push(base + 2);
            r.indices.push(base + 3);
            r.indices.push(base);
        } else {
            r.indices.push(base);
            r.indices.push(base + 2);
            r.indices.push(base + 1);
            r.indices.push(base + 2);
            r.indices.push(base);
            r.indices.push(base + 3);
        }
        proof {
            let next = before.merged(panel(i, revert));
            assert(r.vertices@ =~= next.vertices);
            assert(r.normals@ =~= next.normals);
            assert(r@.indices =~= next.indices);
        }
        i += 1;
    }
    proof {
        lemma_strip_mesh(resolution as nat, revert);
    }
    r
}

/// A cap at the bottom or at the top: a fan of `resolution` triangles from
/// the box corner to consecutive arc points, facing down or up.
pub fn cap(resolution: u32, top: bool) -> (r: MeshBuffer<WedgePoint, WedgeNormal>)
    requires
        resolution + 2 <= u32::MAX,
    ensures
        r@ == cap_mesh(resolution as nat, top),
        r@.wf(),
        r@.nondegenerate(),
        r@.vertices.len() == resolution + 2,
        r@.indices.len() == 3 * resolution,
{
    let normal = WedgeNormal::Flat(if top { Direction::YPos } else { Direction::YNeg });
    let (second, third): (u32, u32) = if top { (1, 2) } else { (2, 1) };
    let mut r: MeshBuffer<WedgePoint, WedgeNormal> = MeshBuffer::empty();
    r.vertices.push(WedgePoint { cos_at: Angle::Min, sin_at: Angle::Max, top });
    r.normals.push(normal);
    let mut s: u32 = 0;
    while s <= resolution
        invariant
            resolution + 2 <= u32::MAX,
            0 <= s <= resolution + 1,
            normal == cap_normal(top),
            r.vertices@ =~= seq![box_corner(top)] + Seq::new(s as nat, |j: int| ring_point(j as u32, top)),
            r.normals@ =~= Seq::new((s + 1) as nat, |j: int| cap_normal(top)),
            r.indices@.len() == 0,
        decreases resolution + 1 - s,
    {
        r.vertices.push(ring(s, top));
        r.normals.push(normal);
        s += 1;
    }
    let mut t: u32 = 0;
    while t < resolution
        invariant
            resolution + 2 <= u32::MAX,
            0 <= t <= resolution,
            second == (if top { 1u32 } else { 2u32 }),
            third == (if top { 2u32 } else { 1u32 }),
            r.vertices@ == cap_mesh(resolution as nat, top).vertices,
            r.normals@ == cap_mesh(resolution as nat, top).normals,
            r.indices@.len() == 3 * t,
            r@.indices =~= Seq::new(3 * t as nat, |k: int| cap_index(k, top)),
        decreases resolution - t,
    {
        let ghost before = r@.indices;
        r.indices.push(0);
        r.indices.push(t + second);
        r.indices.push(t + third);
        proof {
            let k = 3 * t as int;
            assert(k / 3 == t && k % 3 == 0);
            assert((k + 1) / 3 == t && (k + 1) % 3 == 1);
            assert((k + 2) / 3 == t && (k + 2) % 3 == 2);
            assert(r@.indices[k] == cap_index(k, top));
            assert(r@.indices[k + 1] == cap_index(k + 1, top));
            assert(r@.indices[k + 2] == cap_index(k + 2, top));
            assert forall|j: int| 0 <= j < k implies r@.indices[j] == cap_index(j, top) by {
                assert(r@.indices[j] == before[j]);
            }
            assert(r@.indices =~= Seq::new(3 * (t + 1) as nat, |k: int| cap_index(k, top)));
        }
        t += 1;
    }
    proof {
        assert(r@ == cap_mesh(resolution as nat, top));
        lemma_cap_mesh(resolution as nat, top);
    }
    r
}

/// The flat back face, at the upper angle, facing +Z.
pub fn back() -> (r: MeshBuffer<WedgePoint, WedgeNormal>)
    ensures
        r@ == back_mesh(),
        r@.wf(),
{
    MeshBuffer::quad(
        WedgePoint { cos_at: Angle::Min, sin_at: Angle::Max, top: false },
        WedgePoint { cos_at: Angle::Min, sin_at: Angle::Max, top: true },
        WedgePoint { cos_at: Angle::Max, sin_at: Angle::Max, top: true },
        WedgePoint { cos_at: Angle::Max, sin_at: Angle::Max, top: false },
        WedgeNormal::Flat(Direction::ZPos),
    )
}

/// The flat side face, at the lower angle's X, facing +X.
pub fn side() -> (r: MeshBuffer<WedgePoint, WedgeNormal>)
    ensures
        r@ == side_mesh(),
        r@.wf(),
{
    MeshBuffer::quad(
        WedgePoint { cos_at: Angle::Min, sin_at: Angle::Min, top: false },
        WedgePoint { cos_at: Angle::Min, sin_at: Angle::Min, top: true },
        WedgePoint { cos_at: Angle::Min, sin_at: Angle::Max, top: true },
        WedgePoint { cos_at: Angle::Min, sin_at: Angle::Max, top: false },
        WedgeNormal::Flat(Direction::XPos),
    )
}

proof fn lemma_wedge_mesh(n: u32, rectangle: bool)
    requires
        wedge_vertex_count(n as int, rectangle) <= u32::MAX,
    ensures
        wedge_mesh(n as nat, rectangle).wf(),
        wedge_mesh(n as nat, rectangle).nondegenerate(),
        wedge_mesh(n as nat, rectangle).vertices.len() == wedge_vertex_count(n as int, rectangle),
        wedge_mesh(n as nat, rectangle).triangle_count() == wedge_triangle_count(n as int, rectangle),
{
    let n = n as nat;
    let a = strip_mesh(n, false);
    lemma_strip_mesh(n, false);
    if rectangle {
        lemma_cap_mesh(n, true);
        lemma_cap_mesh(n, false);
        lemma_flat_faces();
        let b = a.merged(cap_mesh(n, true));
        let c = b.merged(cap_mesh(n, false));
        let d = c.merged(back_mesh());
        lemma_merged_wf(a, cap_mesh(n, true));
        lemma_merged_wf(b, cap_mesh(n, false));
        lemma_merged_wf(c, back_mesh());
        lemma_merged_wf(d, side_mesh());
        lemma_merged_nondegenerate(a, cap_mesh(n, true));
        lemma_merged_nondegenerate(b, cap_mesh(n, false));
        lemma_merged_nondegenerate(c, back_mesh());
        lemma_merged_nondegenerate(d, side_mesh());
    } else {
        lemma_strip_mesh(n, true);
        lemma_merged_wf(a, strip_mesh(n, true));
        lemma_merged_nondegenerate(a, strip_mesh(n, true));
    }
}

/// Builds the wedge with `resolution` steps: a solid when `rectangle`
/// holds, else a thin wall whose two sides face opposite ways. Every
/// triangle names three distinct vertices of the buffer, and the solid is
/// closed once the arc's end steps are taken for the two bounds.
pub fn wedge(resolution: u32, rectangle: bool) -> (r: MeshBuffer<WedgePoint, WedgeNormal>)
    requires
        wedge_vertex_count(resolution as int, rectangle) <= u32::MAX,
    ensures
        r@ == wedge_mesh(resolution as nat, rectangle),
        r@.wf(),
        r@.nondegenerate(),
        r@.vertices.len() == wedge_vertex_count(resolution as int, rectangle),
        r@.triangle_count() == wedge_triangle_count(resolution as int, rectangle),
        rectangle && resolution >= 1 ==> r@.with_positions(settler(resolution as nat)).closed(),
{
    proof {
        lemma_wedge_mesh(resolution, rectangle);
        if rectangle && resolution >= 1 {
            lemma_solid_wedge_closed(resolution);
        }
    }
    let mut r = arc_strip(resolution, false);
    if rectangle {
        let top = cap(resolution, true);
        let bottom = cap(resolution, false);
        proof {
            lemma_flat_faces();
        }
        r.merge(top);
        r.merge(bottom);
        r.merge(back());
        r.merge(side());
    } else {
        let outer = arc_strip(resolution, true);
        r.merge(outer);
    }
    r
}

} // verus!
