//! The table: an open-top rectangular tray made of a floor and four walls,
//! each wall listed twice, once facing in and once facing out.

use vstd::prelude::*;
use crate::mesh::{Direction, MeshBuffer, MeshModel, lemma_merged_triangles, lemma_merged_wf, turn};

verus! {

/// A corner of the tray's bounding box: on each axis, whether it lies on
/// the upper bound (`x` runs along the width, `y` along the wall height,
/// `z` along the length).
#[derive(Clone, Copy, Debug, PartialEq, Eq, Structural)]
pub struct Corner {
    pub x_max: bool,
    pub y_max: bool,
    pub z_max: bool,
}

/// Number of flat faces: the floor and both sides of four walls.
pub const FACE_COUNT: usize = 9;

/// The corner with coordinates `x`, `y`, `z` in the unit box (each 0 or 1).
pub open spec fn corner(x: int, y: int, z: int) -> Corner {
    Corner { x_max: x == 1, y_max: y == 1, z_max: z == 1 }
}

/// The corners of face `f`, counter-clockwise as seen from its normal, and
/// that normal: the floor, then the inner and outer sides of the left,
/// front, right and back walls.
pub open spec fn face(f: int) -> (Seq<Corner>, Direction) {
    if f == 0 {
        (seq![corner(0, 0, 0), corner(0, 0, 1), corner(1, 0, 1), corner(1, 0, 0)], Direction::YPos)
    } else if f == 1 {
        (seq![corner(0, 0, 0), corner(0, 1, 0), corner(0, 1, 1), corner(0, 0, 1)], Direction::XPos)
    } else if f == 2 {
        (seq![corner(0, 0, 0), corner(0, 0, 1), corner(0, 1, 1), corner(0, 1, 0)], Direction::XNeg)
    } else if f == 3 {
        (seq![corner(0, 0, 1), corner(0, 1, 1), corner(1, 1, 1), corner(1, 0, 1)], Direction::ZNeg)
    } else if f == 4 {
        (seq![corner(0, 0, 1), corner(1, 0, 1), corner(1, 1, 1), corner(0, 1, 1)], Direction::ZPos)
    } else if f == 5 {
        (seq![corner(1, 0, 1), corner(1, 1, 1), corner(1, 1, 0), corner(1, 0, 0)], Direction::XNeg)
    } else if f == 6 {
        (seq![corner(1, 0, 1), corner(1, 0, 0), corner(1, 1, 0), corner(1, 1, 1)], Direction::XPos)
    } else if f == 7 {
        (seq![corner(0, 0, 0), corner(1, 0, 0), corner(1, 1, 0), corner(0, 1, 0)], Direction::ZPos)
    } else {
        (seq![corner(0, 0, 0), corner(0, 1, 0), corner(1, 1, 0), corner(1, 0, 0)], Direction::ZNeg)
    }
}

/// Index pattern that splits a quad `0 1 2 3` into two triangles.
pub open spec fn quad_pattern() -> Seq<int> {
    seq![0, 1, 2, 2, 3, 0]
}

/// Face `f` as a mesh of its own: four vertices sharing the face's normal
/// and two triangles.
pub open spec fn face_mesh(f: int) -> MeshModel<Corner, Direction> {
    MeshModel {
        vertices: face(f).0,
        normals: Seq::new(4, |j: int| face(f).1),
        indices: quad_pattern(),
    }
}

/// The first `n` faces merged in order.
pub open spec fn faces_mesh(n: nat) -> MeshModel<Corner, Direction>
    decreases n,
{
    if n == 0 {
        MeshModel::empty()
    } else {
        faces_mesh((n - 1) as nat).merged(face_mesh(n - 1))
    }
}

/// The whole tray.
pub open spec fn tray_mesh() -> MeshModel<Corner, Direction> {
    faces_mesh(FACE_COUNT as nat)
}

/// The corner's coordinates in the unit box.
pub open spec fn unit_point(c: Corner) -> (int, int, int) {
    (
        if c.x_max { 1int } else { 0int },
        if c.y_max { 1int } else { 0int },
        if c.z_max { 1int } else { 0int },
    )
}

/// Cross product of `b - a` and `c - a`, in unit-box coordinates: it
/// points to the side from which `a b c` turns counter-clockwise.
pub open spec fn facing(a: Corner, b: Corner, c: Corner) -> (int, int, int) {
    turn(unit_point(a), unit_point(b), unit_point(c))
}

/// Triangle `t` of `m` has one normal at its three corners, and it is
/// wound counter-clockwise as seen from that normal.
pub open spec fn wound_along_normal(m: MeshModel<Corner, Direction>, t: int) -> bool {
    let (i, j, k) = m.triangle(t);
    &&& m.normals[j] == m.normals[i]
    &&& m.normals[k] == m.normals[i]
    &&& facing(m.vertices[i], m.vertices[j], m.vertices[k]) == m.normals[i].unit()
}

proof fn lemma_face_wound(f: int)
    requires
        0 <= f < FACE_COUNT,
    ensures
        ({
            let (c, n) = face(f);
            facing(c[0], c[1], c[2]) == n.unit() && facing(c[2], c[3], c[0]) == n.unit()
        }),
{
    if f == 0 {
    } else if f == 1 {
    } else if f == 2 {
    } else if f == 3 {
    } else if f == 4 {
    } else if f == 5 {
    } else if f == 6 {
    } else if f == 7 {
    } else {
    }
}

proof fn lemma_faces_layout(n: nat)
    requires
        n <= FACE_COUNT,
    ensures
        forall|v: int|
            0 <= v < 4 * n ==> #[trigger] faces_mesh(n).vertices[v] == face(v / 4).0[v % 4]
                && faces_mesh(n).normals[v] == face(v / 4).1,
        forall|t: int|
            0 <= t < 2 * n ==> #[trigger] faces_mesh(n).triangle(t) == (if t % 2 == 0 {
                (2 * t, 2 * t + 1, 2 * t + 2)
            } else {
                (2 * t, 2 * t + 1, 2 * t - 2)
            }),
    decreases n,
{
    lemma_faces_mesh(n);
    if n > 0 {
        let prev = faces_mesh((n - 1) as nat);
        let last = face_mesh(n - 1);
        lemma_faces_layout((n - 1) as nat);
        lemma_faces_mesh((n - 1) as nat);
        lemma_merged_triangles(prev, last);
        assert(last.triangle(0) == (0int, 1int, 2int));
        assert(last.triangle(1) == (2int, 3int, 0int));
        assert forall|v: int| 0 <= v < 4 * n implies #[trigger] faces_mesh(n).vertices[v]
            == face(v / 4).0[v % 4] && faces_mesh(n).normals[v] == face(v / 4).1 by {
            if v >= 4 * (n - 1) {
                assert(v / 4 == n - 1);
            }
        }
        assert forall|t: int| 0 <= t < 2 * n implies #[trigger] faces_mesh(n).triangle(t) == (
        if t % 2 == 0 {
            (2 * t, 2 * t + 1, 2 * t + 2)
        } else {
            (2 * t, 2 * t + 1, 2 * t - 2)
        }) by {
            if t >= 2 * (n - 1) {
                let u = t - 2 * (n - 1);
                assert(last.triangle(u) == last.triangle(u));
                assert(prev.triangle_count() == 2 * (n - 1));
            }
        }
    }
}

/// Every triangle of the tray is wound counter-clockwise as seen from its
/// normal, which all three of its corners share. The statement is in
/// unit-box coordinates; stretching each axis by a positive size keeps the
/// sign of every component, so it holds for a tray of any positive size.
pub proof fn lemma_tray_wound()
    ensures
        tray_mesh().triangle_count() == 18,
        forall|t: int| 0 <= t < tray_mesh().triangle_count() ==> wound_along_normal(tray_mesh(), t),
{
    let m = tray_mesh();
    lemma_faces_mesh(FACE_COUNT as nat);
    lemma_faces_layout(FACE_COUNT as nat);
    assert forall|t: int| 0 <= t < m.triangle_count() implies wound_along_normal(m, t) by {
        let f = t / 2;
        lemma_face_wound(f);
        assert(m.triangle(t) == m.triangle(t));
        if t % 2 == 0 {
            assert(m.vertices[2 * t] == face(f).0[0]);
            assert(m.vertices[2 * t + 1] == face(f).0[1]);
            assert(m.vertices[2 * t + 2] == face(f).0[2]);
        } else {
            assert(m.vertices[2 * t] == face(f).0[2]);
            assert(m.vertices[2 * t + 1] == face(f).0[3]);
            assert(m.vertices[2 * t - 2] == face(f).0[0]);
        }
    }
}

fn make_corner(x: bool, y: bool, z: bool) -> (r: Corner)
    ensures
        r == (Corner { x_max: x, y_max: y, z_max: z }),
{
    Corner { x_max: x, y_max: y, z_max: z }
}

/// Corners and normal of face `f`.
fn face_of(f: usize) -> (r: ([Corner; 4], Direction))
    requires
        f < FACE_COUNT,
    ensures
        r.0@ == face(f as int).0,
        r.1 == face(f as int).1,
{
    let (lo, hi) = (false, true);
    let r = if f == 0 {
        ([make_corner(lo, lo, lo), make_corner(lo, lo, hi), make_corner(hi, lo, hi), make_corner(hi, lo, lo)], Direction::YPos)
    } else if f == 1 {
        ([make_corner(lo, lo, lo), make_corner(lo, hi, lo), make_corner(lo, hi, hi), make_corner(lo, lo, hi)], Direction::XPos)
    } else if f == 2 {
        ([make_corner(lo, lo, lo), make_corner(lo, lo, hi), make_corner(lo, hi, hi), make_corner(lo, hi, lo)], Direction::XNeg)
    } else if f == 3 {
        ([make_corner(lo, lo, hi), make_corner(lo, hi, hi), make_corner(hi, hi, hi), make_corner(hi, lo, hi)], Direction::ZNeg)
    } else if f == 4 {
        ([make_corner(lo, lo, hi), make_corner(hi, lo, hi), make_corner(hi, hi, hi), make_corner(lo, hi, hi)], Direction::ZPos)
    } else if f == 5 {
        ([make_corner(hi, lo, hi), make_corner(hi, hi, hi), make_corner(hi, hi, lo), make_corner(hi, lo, lo)], Direction::XNeg)
    } else if f == 6 {
        ([make_corner(hi, lo, hi), make_corner(hi, lo, lo), make_corner(hi, hi, lo), make_corner(hi, hi, hi)], Direction::XPos)
    } else if f == 7 {
        ([make_corner(lo, lo, lo), make_corner(hi, lo, lo), make_corner(hi, hi, lo), make_corner(lo, hi, lo)], Direction::ZPos)
    } else {
        ([make_corner(lo, lo, lo), make_corner(lo, hi, lo), make_corner(hi, hi, lo), make_corner(hi, lo, lo)], Direction::ZNeg)
    };
    assert(r.0@ =~= face(f as int).0);
    r
}

proof fn lemma_faces_mesh(n: nat)
    requires
        n <= FACE_COUNT,
    ensures
        faces_mesh(n).wf(),
        faces_mesh(n).vertices.len() == 4 * n,
        faces_mesh(n).indices.len() == 6 * n,
    decreases n,
{
    if n > 0 {
        lemma_faces_mesh((n - 1) as nat);
        let f = face_mesh(n - 1);
        assert(f.wf()) by {
            assert(f.indices.len() == 6);
        }
        lemma_merged_wf(faces_mesh((n - 1) as nat), f);
    }
}

/// Builds the tray: 9 faces of 4 vertices each, every face split into two
/// triangles with the same pattern.
pub fn tray() -> (r: MeshBuffer<Corner, Direction>)
    ensures
        r@ == tray_mesh(),
        r@.wf(),
        r@.vertices.len() == 36,
        r@.indices.len() == 54,
{
    let mut r: MeshBuffer<Corner, Direction> = MeshBuffer::empty();
    let mut f: usize = 0;
    while f < FACE_COUNT
        invariant
            0 <= f <= FACE_COUNT,
            r@ == faces_mesh(f as nat),
        decreases FACE_COUNT - f,
    {
        proof {
            lemma_faces_mesh(f as nat);
        }
        let ghost before = r@;
        let (corners, normal) = face_of(f);
        let base = (4 * f) as u32;
        let mut j: usize = 0;
        while j < 4
            invariant
                0 <= j <= 4,
                corners@ == face(f as int).0,
                r.vertices@ == before.vertices + corners@.subrange(0, j as int),
                r.normals@ == before.normals + Seq::new(j as nat, |k: int| normal),
                r@.indices == before.indices,
            decreases 4 - j,
        {
            r.vertices.push(corners[j]);
            r.normals.push(normal);
            proof {
                assert(r.vertices@ =~= before.vertices + corners@.subrange(0, j + 1));
                assert(r.normals@ =~= before.normals + Seq::new((j + 1) as nat, |k: int| normal));
            }
            j += 1;
        }
        r.indices.push(base);
        r.indices.push(base + 1);
        r.indices.push(base + 2);
        r.indices.push(base + 2);
        r.indices.push(base + 3);
        r.indices.push(base);
        proof {
            let next = before.merged(face_mesh(f as int));
            assert(r.vertices@ =~= next.vertices);
            assert(r.normals@ =~= next.normals);
            assert(r@.indices =~= next.indices);
        }
        f += 1;
    }
    proof {
        lemma_faces_mesh(FACE_COUNT as nat);
    }
    r
}

} // verus!
