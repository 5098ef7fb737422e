use pinball::flipper::{flipper, Arc, FlipperNormal, FlipperPoint, Spot};
use pinball::mesh::Direction;
use pinball::table::{tray, Corner};
use pinball::wedge::{arc_strip, cap, wedge, Angle, WedgeNormal, WedgePoint};

fn triangles(indices: &[u32]) -> Vec<(u32, u32, u32)> {
    indices.chunks(3).map(|t| (t[0], t[1], t[2])).collect()
}

#[test]
fn tray_has_nine_quads() {
    let m = tray();
    assert_eq!(m.vertices.len(), 36);
    assert_eq!(m.normals.len(), 36);
    assert_eq!(m.indices.len(), 54);
    assert_eq!(&m.indices[0..6], &[0, 1, 2, 2, 3, 0]);
    assert_eq!(&m.indices[48..54], &[32, 33, 34, 34, 35, 32]);
}

#[test]
fn tray_floor_and_inner_left_wall() {
    let m = tray();
    let c = |x, y, z| Corner { x_max: x, y_max: y, z_max: z };
    assert_eq!(m.vertices[0], c(false, false, false));
    assert_eq!(m.vertices[1], c(false, false, true));
    assert_eq!(m.vertices[2], c(true, false, true));
    assert_eq!(m.vertices[3], c(true, false, false));
    assert_eq!(&m.normals[0..4], &[Direction::YPos; 4]);
    assert_eq!(m.vertices[5], c(false, true, false));
    assert_eq!(&m.normals[4..8], &[Direction::XPos; 4]);
    assert_eq!(&m.normals[32..36], &[Direction::ZNeg; 4]);
}

#[test]
fn thin_wedge_with_one_step() {
    let strip = arc_strip(1, false);
    assert_eq!(strip.vertices.len(), 4);
    assert_eq!(strip.indices.len(), 6);

    let m = wedge(1, false);
    assert_eq!(m.vertices.len(), 8);
    assert_eq!(m.normals.len(), 8);
    assert_eq!(m.indices, vec![0, 2, 1, 2, 0, 3, 4, 5, 6, 6, 7, 4]);
    let p = |s, top| WedgePoint { cos_at: Angle::Step(s), sin_at: Angle::Step(s), top };
    assert_eq!(m.vertices[0..4], [p(0, false), p(0, true), p(1, true), p(1, false)]);
    assert_eq!(m.vertices[4..8], [p(0, false), p(0, true), p(1, true), p(1, false)]);
    assert_eq!(m.normals[0], WedgeNormal::Radial { step: 0, outward: false });
    assert_eq!(m.normals[1], WedgeNormal::Radial { step: 0, outward: false });
    assert_eq!(m.normals[2], WedgeNormal::Radial { step: 1, outward: false });
    assert_eq!(m.normals[5], WedgeNormal::Radial { step: 0, outward: true });
    assert_eq!(m.normals[7], WedgeNormal::Radial { step: 1, outward: true });
}

#[test]
fn solid_wedge_sizes() {
    let m = wedge(20, true);
    assert_eq!(m.vertices.len(), 6 * 20 + 12);
    assert_eq!(m.normals.len(), m.vertices.len());
    assert_eq!(m.indices.len(), 3 * (4 * 20 + 4));
    assert!(m.indices.iter().all(|&i| (i as usize) < m.vertices.len()));
    for (a, b, c) in triangles(&m.indices) {
        assert!(a != b && b != c && a != c);
    }
}

#[test]
fn solid_wedge_back_and_side() {
    let m = wedge(2, true);
    // strip 8, top cap 4, bottom cap 4, back 4, side 4
    assert_eq!(m.vertices.len(), 24);
    let corner = |c, s, top| WedgePoint { cos_at: c, sin_at: s, top };
    assert_eq!(m.vertices[16], corner(Angle::Min, Angle::Max, false));
    assert_eq!(m.vertices[18], corner(Angle::Max, Angle::Max, true));
    assert_eq!(m.vertices[20], corner(Angle::Min, Angle::Min, false));
    assert_eq!(m.vertices[22], corner(Angle::Min, Angle::Max, true));
    assert_eq!(m.normals[16], WedgeNormal::Flat(Direction::ZPos));
    assert_eq!(m.normals[20], WedgeNormal::Flat(Direction::XPos));
    assert_eq!(&m.indices[m.indices.len() - 6..], &[20, 21, 22, 22, 23, 20]);
}

#[test]
fn caps_face_opposite_ways() {
    let top = cap(3, true);
    let bottom = cap(3, false);
    assert_eq!(top.vertices.len(), 5);
    assert_eq!(top.indices, vec![0, 1, 2, 0, 2, 3, 0, 3, 4]);
    assert_eq!(bottom.indices, vec![0, 2, 1, 0, 3, 2, 0, 4, 3]);
    assert_eq!(top.normals[0], WedgeNormal::Flat(Direction::YPos));
    assert_eq!(bottom.normals[4], WedgeNormal::Flat(Direction::YNeg));
    assert_eq!(
        top.vertices[0],
        WedgePoint { cos_at: Angle::Min, sin_at: Angle::Max, top: true }
    );
}

#[test]
fn flipper_with_table_settings() {
    let m = flipper(20);
    assert!(!m.vertices.is_empty());
    assert_eq!(m.vertices.len(), 8 * 20 + 24);
    assert_eq!(m.normals.len(), m.vertices.len());
    assert_eq!(m.indices.len() % 3, 0);
    assert_eq!(m.indices.len(), 3 * (8 * 20 + 12));
    assert!(m.indices.iter().all(|&i| (i as usize) < m.vertices.len()));
    for (a, b, c) in triangles(&m.indices) {
        assert!(a != b && b != c && a != c);
    }
}

#[test]
fn flipper_border_closes_the_loop() {
    let m = flipper(1);
    // bottom cap 3 + 6 + 3, top cap the same, border 8
    assert_eq!(m.vertices.len(), 32);
    let last = &m.indices[m.indices.len() - 6..];
    assert_eq!(last, &[24 + 6, 24 + 7, 24 + 1, 24 + 1, 24, 24 + 6]);
    assert_eq!(
        m.vertices[24 + 6],
        FlipperPoint { arc: Arc::Small, spot: Spot::Rim(1), top: false }
    );
    assert_eq!(m.normals[24 + 7], FlipperNormal::Radial { arc: Arc::Small, step: 1 });
    assert_eq!(m.normals[0], FlipperNormal::Flat(Direction::YNeg));
    assert_eq!(m.normals[12], FlipperNormal::Flat(Direction::YPos));
}

#[test]
fn flipper_gusset_joins_the_fans() {
    let m = flipper(2);
    // large fan: 4 vertices, 2 triangles; the gusset follows
    assert_eq!(&m.indices[6..18], &[4, 6, 8, 4, 8, 7, 5, 4, 7, 5, 7, 9]);
    assert_eq!(
        m.vertices[6],
        FlipperPoint { arc: Arc::Large, spot: Spot::Rim(2), top: false }
    );
    assert_eq!(
        m.vertices[9],
        FlipperPoint { arc: Arc::Small, spot: Spot::Rim(2), top: false }
    );
}

#[test]
fn flipper_surface_is_closed() {
    let m = flipper(20);
    let edges: Vec<(FlipperPoint, FlipperPoint)> = triangles(&m.indices)
        .into_iter()
        .flat_map(|(a, b, c)| {
            let (a, b, c) = (m.vertices[a as usize], m.vertices[b as usize], m.vertices[c as usize]);
            vec![(a, b), (b, c), (c, a)]
        })
        .collect();
    for &(p, q) in &edges {
        assert!(edges.contains(&(q, p)), "edge {:?} -> {:?} has no partner", p, q);
    }
}

#[test]
fn quad_splits_into_two_triangles() {
    let q = pinball::mesh::MeshBuffer::quad(1u8, 2, 3, 4, Direction::ZPos);
    assert_eq!(q.vertices, vec![1, 2, 3, 4]);
    assert_eq!(q.normals, vec![Direction::ZPos; 4]);
    assert_eq!(q.indices, vec![0, 1, 2, 2, 3, 0]);
}

#[test]
fn thin_wedge_sides_run_each_other_back() {
    let m = wedge(5, false);
    let edges: Vec<(WedgePoint, WedgePoint)> = triangles(&m.indices)
        .into_iter()
        .flat_map(|(a, b, c)| {
            let (a, b, c) = (m.vertices[a as usize], m.vertices[b as usize], m.vertices[c as usize]);
            vec![(a, b), (b, c), (c, a)]
        })
        .collect();
    assert_eq!(edges.len(), 3 * 4 * 5);
    for &(p, q) in &edges {
        assert!(edges.contains(&(q, p)));
    }
}

#[test]
fn flipper_edges_run_once_each_way() {
    let m = flipper(20);
    let edges: Vec<(FlipperPoint, FlipperPoint)> = triangles(&m.indices)
        .into_iter()
        .flat_map(|(a, b, c)| {
            let (a, b, c) = (m.vertices[a as usize], m.vertices[b as usize], m.vertices[c as usize]);
            vec![(a, b), (b, c), (c, a)]
        })
        .collect();
    for &(p, q) in &edges {
        assert_eq!(edges.iter().filter(|&&e| e == (p, q)).count(), 1);
        assert_eq!(edges.iter().filter(|&&e| e == (q, p)).count(), 1);
    }
}

#[test]
fn solid_wedge_closes_at_the_bounds() {
    let n = 6u32;
    let m = wedge(n, true);
    let settle = |a: Angle| match a {
        Angle::Step(0) => Angle::Min,
        Angle::Step(s) if s == n => Angle::Max,
        other => other,
    };
    let at = |i: u32| {
        let p = m.vertices[i as usize];
        WedgePoint { cos_at: settle(p.cos_at), sin_at: settle(p.sin_at), top: p.top }
    };
    let edges: Vec<(WedgePoint, WedgePoint)> = triangles(&m.indices)
        .into_iter()
        .flat_map(|(a, b, c)| vec![(at(a), at(b)), (at(b), at(c)), (at(c), at(a))])
        .collect();
    for &(p, q) in &edges {
        assert!(edges.contains(&(q, p)), "edge {:?} -> {:?} has no partner", p, q);
    }
}
