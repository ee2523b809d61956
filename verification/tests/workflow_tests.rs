//! The modeller's workflows end to end: the document operations driven
//! with real positions (planes, normals, triangulation, face detection
//! over the drawn loops), as the viewer drives them.

use craft3d::document::{Document, EdgeSplit, GroupId, ModelReport};
use craft3d::face_detect::{assemble_faces, neighbor_lists, split_edges, trace_cycles, DetectedFace};
use craft3d::history::History;
use craft3d::layout::print_layout;
use craft3d::mesh::{FaceId, Mesh, VertexId};
use craft3d::pushpull::is_manifold;
use craft3d::stl::ExportError;
use glam::{DVec2, DVec3};
use std::collections::HashSet;

// ---- plane geometry, as the application computes it ----


/// Two points closer than this are the same point (1 world unit = 1mm):
/// far above f32 round-off of coordinates sent to the viewer and back,
/// far below anything a user draws on purpose.
const WELD_TOLERANCE: f64 = 1e-3;

/// How far outside its target face a sketched corner may land and still
/// count as on it (a corner snapped exactly onto the face's own edge).
const FACE_FIT_TOLERANCE: f64 = 1e-2;

/// An oriented plane with an orthonormal (u, v, normal) basis, used to
/// project 3D loop points into 2D and back.
#[derive(Debug, Clone, Copy)]
struct Plane {
    origin: DVec3,
    normal: DVec3,
    u: DVec3,
    v: DVec3,
}

impl Plane {
    fn from_normal(origin: DVec3, normal: DVec3) -> Self {
        let normal = normal.normalize();
        let reference = if normal.x.abs() < 0.9 { DVec3::X } else { DVec3::Y };
        let v = normal.cross(reference).normalize();
        let u = v.cross(normal);
        Plane { origin, normal, u, v }
    }

    fn to_2d(&self, p: DVec3) -> DVec2 {
        let d = p - self.origin;
        DVec2::new(d.dot(self.u), d.dot(self.v))
    }

    fn to_3d(&self, p: DVec2) -> DVec3 {
        self.origin + self.u * p.x + self.v * p.y
    }
}

/// Newell's method: the unit normal of a (possibly non-convex) planar
/// polygon, zero for fewer than three points.
fn newell_normal(points: &[DVec3]) -> DVec3 {
    let len = points.len();
    if len < 3 {
        return DVec3::ZERO;
    }
    let mut n = DVec3::ZERO;
    for i in 0..len {
        let curr = points[i];
        let next = points[(i + 1) % len];
        n.x += (curr.y - next.y) * (curr.z + next.z);
        n.y += (curr.z - next.z) * (curr.x + next.x);
        n.z += (curr.x - next.x) * (curr.y + next.y);
    }
    n.normalize_or_zero()
}

/// The positions of a face's outer loop.
fn outer_positions(mesh: &Mesh<DVec3>, f: FaceId) -> Vec<DVec3> {
    match mesh.get_face(f) {
        Some(face) => face.outer.iter().map(|&v| mesh.position(v)).collect(),
        None => Vec::new(),
    }
}

/// A face's normal, from its current outer loop.
fn face_normal(mesh: &Mesh<DVec3>, f: FaceId) -> DVec3 {
    newell_normal(&outer_positions(mesh, f))
}

/// The plane a face lies in, anchored at its first outer vertex.
fn face_plane(mesh: &Mesh<DVec3>, f: FaceId) -> Option<Plane> {
    let face = mesh.get_face(f)?;
    let first = *face.outer.first()?;
    let normal = face_normal(mesh, f);
    if normal == DVec3::ZERO {
        return None;
    }
    Some(Plane::from_normal(mesh.position(first), normal))
}

/// Axis-aligned (in plane coordinates) rectangle corners, counter-clockwise.
fn rectangle_points(plane: &Plane, corner_a: DVec2, corner_b: DVec2) -> Vec<DVec3> {
    let min = corner_a.min(corner_b);
    let max = corner_a.max(corner_b);
    [DVec2::new(min.x, min.y), DVec2::new(max.x, min.y), DVec2::new(max.x, max.y), DVec2::new(min.x, max.y)]
        .iter()
        .map(|&p| plane.to_3d(p))
        .collect()
}

/// A regular polygon approximating a circle (at least three segments).
fn circle_points(plane: &Plane, center: DVec2, radius: f64, segments: usize) -> Vec<DVec3> {
    let segments = segments.max(3);
    (0..segments)
        .map(|i| {
            let angle = (i as f64 / segments as f64) * std::f64::consts::TAU;
            plane.to_3d(center + DVec2::new(angle.cos(), angle.sin()) * radius)
        })
        .collect()
}

/// A regular polygon of 5 to 8 sides, rotated by `start_angle_deg`.
fn ngon_points(plane: &Plane, center: DVec2, radius: f64, sides: usize, start_angle_deg: f64) -> Vec<DVec3> {
    let sides = sides.clamp(5, 8);
    let start = start_angle_deg.to_radians();
    (0..sides)
        .map(|i| {
            let angle = start + (i as f64 / sides as f64) * std::f64::consts::TAU;
            plane.to_3d(center + DVec2::new(angle.cos(), angle.sin()) * radius)
        })
        .collect()
}

/// A chord-closed circular segment: `segments + 1` points along the arc.
fn arc_points(plane: &Plane, center: DVec2, radius: f64, start_angle_deg: f64, sweep_deg: f64, segments: usize) -> Vec<DVec3> {
    let segments = segments.max(2);
    let start = start_angle_deg.to_radians();
    let sweep = sweep_deg.to_radians();
    (0..=segments)
        .map(|i| {
            let angle = start + sweep * (i as f64 / segments as f64);
            plane.to_3d(center + DVec2::new(angle.cos(), angle.sin()) * radius)
        })
        .collect()
}

fn cross2(a: DVec2, b: DVec2) -> f64 {
    a.x * b.y - a.y * b.x
}

/// Signed area of a closed 2D loop (positive when counter-clockwise).
fn signed_area(points: &[DVec2]) -> f64 {
    let n = points.len();
    let mut area = 0.0;
    for i in 0..n {
        let a = points[i];
        let b = points[(i + 1) % n];
        area += a.x * b.y - b.x * a.y;
    }
    area * 0.5
}

/// True if `p` lies strictly between `a` and `b`, within the weld
/// tolerance of the segment.
fn on_segment_interior(p: DVec2, a: DVec2, b: DVec2) -> bool {
    let ab = b - a;
    let len_sq = ab.length_squared();
    if len_sq < 1e-18 {
        return false;
    }
    let t = (p - a).dot(ab) / len_sq;
    if !(1e-9..=1.0 - 1e-9).contains(&t) {
        return false;
    }
    let closest = a + ab * t;
    (p - closest).length_squared() < WELD_TOLERANCE * WELD_TOLERANCE
}

fn distance_to_segment(p: DVec2, a: DVec2, b: DVec2) -> f64 {
    let ab = b - a;
    let len_sq = ab.length_squared();
    if len_sq < 1e-18 {
        return (p - a).length();
    }
    let t = ((p - a).dot(ab) / len_sq).clamp(0.0, 1.0);
    (p - (a + ab * t)).length()
}

/// Even-odd point-in-polygon test.
fn point_in_polygon(p: DVec2, polygon: &[DVec2]) -> bool {
    let n = polygon.len();
    if n == 0 {
        return false;
    }
    let mut inside = false;
    let mut j = n - 1;
    for i in 0..n {
        let pi = polygon[i];
        let pj = polygon[j];
        if ((pi.y > p.y) != (pj.y > p.y)) && (p.x < (pj.x - pi.x) * (p.y - pi.y) / (pj.y - pi.y) + pi.x) {
            inside = !inside;
        }
        j = i;
    }
    inside
}

/// Inside `polygon`, or within `tolerance` of its boundary.
fn point_in_or_near_polygon(p: DVec2, polygon: &[DVec2], tolerance: f64) -> bool {
    if point_in_polygon(p, polygon) {
        return true;
    }
    let n = polygon.len();
    (0..n).any(|i| distance_to_segment(p, polygon[i], polygon[(i + 1) % n]) < tolerance)
}

/// Miter offset of a closed loop by `distance` along each edge's inward
/// normal; `None` when the offset collapses or inverts the shape.
fn offset_polygon(points: &[DVec2], distance: f64) -> Option<Vec<DVec2>> {
    let n = points.len();
    if n < 3 {
        return None;
    }
    if distance.abs() < 1e-12 {
        return Some(points.to_vec());
    }
    let mut offset_lines: Vec<(DVec2, DVec2)> = Vec::with_capacity(n);
    for i in 0..n {
        let a = points[i];
        let b = points[(i + 1) % n];
        let edge = b - a;
        let len = edge.length();
        if len < 1e-9 {
            return None;
        }
        let dir = edge / len;
        let inward_normal = DVec2::new(-dir.y, dir.x);
        offset_lines.push((a + inward_normal * distance, dir));
    }
    let mut result = Vec::with_capacity(n);
    for i in 0..n {
        let (p1, d1) = offset_lines[(i + n - 1) % n];
        let (p2, d2) = offset_lines[i];
        result.push(line_intersection(p1, d1, p2, d2).unwrap_or(p2));
    }
    for i in 0..n {
        let (_, dir) = offset_lines[i];
        let new_edge = result[(i + 1) % n] - result[i];
        if new_edge.dot(dir) <= 1e-9 {
            return None;
        }
    }
    let original_area = signed_area(points);
    let result_area = signed_area(&result);
    if result_area.abs() < 1e-9 || original_area.signum() != result_area.signum() {
        return None;
    }
    Some(result)
}

fn line_intersection(p1: DVec2, d1: DVec2, p2: DVec2, d2: DVec2) -> Option<DVec2> {
    let denom = d1.x * d2.y - d1.y * d2.x;
    if denom.abs() < 1e-12 {
        return None;
    }
    let diff = p2 - p1;
    let t = (diff.x * d2.y - diff.y * d2.x) / denom;
    Some(p1 + d1 * t)
}

/// Triangulates a face (holes bridged to their nearest outer vertex, then
/// ear clipping) into triangles over the mesh's own vertices.
fn triangulate_face(mesh: &Mesh<DVec3>, f: FaceId) -> Vec<[VertexId; 3]> {
    let Some(face) = mesh.get_face(f) else {
        return Vec::new();
    };
    if face.outer.len() < 3 {
        return Vec::new();
    }
    let Some(plane) = face_plane(mesh, f) else {
        return Vec::new();
    };
    let mut polygon: Vec<(VertexId, DVec2)> = face.outer.iter().map(|&v| (v, plane.to_2d(mesh.position(v)))).collect();
    for hole in &face.holes {
        if hole.len() < 3 {
            continue;
        }
        let hole2d: Vec<(VertexId, DVec2)> = hole.iter().map(|&v| (v, plane.to_2d(mesh.position(v)))).collect();
        bridge_hole(&mut polygon, &hole2d);
    }
    ear_clip(polygon)
}

fn bridge_hole(outer: &mut Vec<(VertexId, DVec2)>, hole: &[(VertexId, DVec2)]) {
    let mut best = (0usize, 0usize, f64::MAX);
    for (i, &(_, op)) in outer.iter().enumerate() {
        for (j, &(_, hp)) in hole.iter().enumerate() {
            let d = op.distance_squared(hp);
            if d < best.2 {
                best = (i, j, d);
            }
        }
    }
    let (oi, hj, _) = best;
    let m = hole.len();
    let mut insertion: Vec<(VertexId, DVec2)> = Vec::with_capacity(m + 2);
    for k in 0..m {
        insertion.push(hole[(hj + k) % m]);
    }
    insertion.push(hole[hj]);
    insertion.push(outer[oi]);
    outer.splice(oi + 1..oi + 1, insertion);
}

fn ear_clip(mut poly: Vec<(VertexId, DVec2)>) -> Vec<[VertexId; 3]> {
    let mut triangles = Vec::new();
    let max_iterations = poly.len() * poly.len() + 16;
    let mut iterations = 0;
    while poly.len() > 3 && iterations < max_iterations {
        iterations += 1;
        let n = poly.len();
        let mut clipped_an_ear = false;
        for i in 0..n {
            let prev = poly[(i + n - 1) % n];
            let curr = poly[i];
            let next = poly[(i + 1) % n];
            if cross2(curr.1 - prev.1, next.1 - curr.1) <= 1e-12 {
                continue;
            }
            let others = |j: usize| j != (i + n - 1) % n && j != i && j != (i + 1) % n;
            let contains_other =
                poly.iter().enumerate().any(|(j, &(_, p))| others(j) && point_in_triangle(p, prev.1, curr.1, next.1));
            if contains_other {
                continue;
            }
            let skips_a_collinear_point =
                poly.iter().enumerate().any(|(j, &(_, p))| others(j) && on_segment_interior(p, prev.1, next.1));
            if skips_a_collinear_point {
                continue;
            }
            push_triangle_if_nondegenerate(&mut triangles, prev, curr, next);
            poly.remove(i);
            clipped_an_ear = true;
            break;
        }
        if !clipped_an_ear {
            break;
        }
    }
    if poly.len() == 3 {
        push_triangle_if_nondegenerate(&mut triangles, poly[0], poly[1], poly[2]);
    }
    triangles
}

fn push_triangle_if_nondegenerate(triangles: &mut Vec<[VertexId; 3]>, a: (VertexId, DVec2), b: (VertexId, DVec2), c: (VertexId, DVec2)) {
    if cross2(c.1 - a.1, b.1 - a.1).abs() > 1e-12 {
        triangles.push([a.0, b.0, c.0]);
    }
}

fn point_in_triangle(p: DVec2, a: DVec2, b: DVec2, c: DVec2) -> bool {
    cross2(b - a, p - a) > 1e-12 && cross2(c - b, p - b) > 1e-12 && cross2(a - c, p - c) > 1e-12
}

fn loop_area(points: &[DVec2], l: &[usize]) -> f64 {
    signed_area(&l.iter().map(|&i| points[i]).collect::<Vec<_>>())
}

fn centroid(points: &[DVec2], l: &[usize]) -> DVec2 {
    let sum = l.iter().map(|&i| points[i]).fold(DVec2::ZERO, |acc, p| acc + p);
    sum / l.len() as f64
}

/// Reconstructs the faces bounded by the planar graph `edges` over the 2D
/// `points`: splits edges at T-junctions, sorts each vertex's neighbours
/// clockwise, traces the cycles (the library's `trace_cycles`), keeps the
/// counter-clockwise ones, and nests each inside its smallest enclosing
/// loop.
fn detect_faces(points: &[DVec2], edges: &[(usize, usize)]) -> Vec<DetectedFace> {
    let interior: Vec<Vec<usize>> = edges
        .iter()
        .map(|&(a, b)| {
            if a == b {
                return Vec::new();
            }
            let (pa, pb) = (points[a], points[b]);
            let ab = pb - pa;
            let len_sq = ab.length_squared();
            if len_sq <= 1e-18 {
                return Vec::new();
            }
            let mut on: Vec<(usize, f64)> = (0..points.len())
                .filter(|&i| i != a && i != b && on_segment_interior(points[i], pa, pb))
                .map(|i| (i, (points[i] - pa).dot(ab) / len_sq))
                .collect();
            on.sort_by(|x, y| x.1.partial_cmp(&y.1).unwrap_or(std::cmp::Ordering::Equal));
            on.into_iter().map(|(i, _)| i).collect()
        })
        .collect();
    let split = split_edges(edges, &interior);
    let mut nbrs = neighbor_lists(points.len(), &split);
    for (v, list) in nbrs.iter_mut().enumerate() {
        let angle = |w: usize| {
            let d = points[w] - points[v];
            d.y.atan2(d.x)
        };
        list.sort_by(|&x, &y| angle(y).partial_cmp(&angle(x)).unwrap_or(std::cmp::Ordering::Equal));
    }
    let loops: Vec<Vec<usize>> = trace_cycles(&split, &nbrs)
        .into_iter()
        .filter(|c| c.len() >= 3 && loop_area(points, c) > 1e-9)
        .collect();
    let areas: Vec<f64> = loops.iter().map(|l| loop_area(points, l).abs()).collect();
    let centroids: Vec<DVec2> = loops.iter().map(|l| centroid(points, l)).collect();
    let mut parent: Vec<Option<usize>> = vec![None; loops.len()];
    for i in 0..loops.len() {
        let mut best: Option<(usize, f64)> = None;
        for j in 0..loops.len() {
            if i == j || areas[j] <= areas[i] {
                continue;
            }
            let polygon: Vec<DVec2> = loops[j].iter().map(|&k| points[k]).collect();
            let closer = match best {
                None => true,
                Some((_, best_area)) => areas[j] < best_area,
            };
            if point_in_polygon(centroids[i], &polygon) && closer {
                best = Some((j, areas[j]));
            }
        }
        parent[i] = best.map(|(j, _)| j);
    }
    assemble_faces(&loops, &parent)
}

/// Bounding box of the vertices of `face_ids`.
fn bounding_box(mesh: &Mesh<DVec3>, face_ids: &[FaceId]) -> (DVec3, DVec3) {
    let mut min = DVec3::splat(f64::INFINITY);
    let mut max = DVec3::splat(f64::NEG_INFINITY);
    for &f in face_ids {
        if let Some(face) = mesh.get_face(f) {
            for &v in face.outer.iter().chain(face.holes.iter().flatten()) {
                let p = mesh.position(v);
                min = min.min(p);
                max = max.max(p);
            }
        }
    }
    (min, max)
}

// ---- document operations as the viewer drives them ----

type Doc = Document<DVec3>;

struct Lookup {
    mesh: Mesh<DVec3>,
    base: usize,
    added: Vec<DVec3>,
}

impl Lookup {
    fn new(mesh: &Mesh<DVec3>, added: Vec<DVec3>) -> Self {
        Lookup { mesh: mesh.clone(), base: mesh.vertex_count(), added }
    }

    fn pos(&self, v: VertexId) -> DVec3 {
        if v.0 >= self.base {
            self.added[v.0 - self.base]
        } else {
            self.mesh.position(v)
        }
    }
}

fn is_coplanar(mesh: &Mesh<DVec3>, f: FaceId, plane: &Plane) -> bool {
    const EPS: f64 = 1e-6;
    if face_normal(mesh, f).dot(plane.normal) < 1.0 - EPS {
        return false;
    }
    match mesh.get_face(f) {
        Some(face) => face.outer.iter().all(|&v| (mesh.position(v) - plane.origin).dot(plane.normal).abs() < EPS),
        None => false,
    }
}

fn edge_splits(lookup: &Lookup, plane: &Plane, rings: &[Vec<VertexId>], loops: &[Vec<VertexId>]) -> Vec<EdgeSplit> {
    let mut splits = Vec::new();
    for ring in rings {
        let n = ring.len();
        for i in 0..n {
            let (a, b) = (ring[i], ring[(i + 1) % n]);
            let pa = plane.to_2d(lookup.pos(a));
            let ab = plane.to_2d(lookup.pos(b)) - pa;
            let len_sq = ab.length_squared();
            if len_sq < 1e-18 {
                continue;
            }
            let mut on_edge: Vec<(VertexId, f64)> = Vec::new();
            for &v in loops.iter().flatten() {
                if v == a || v == b {
                    continue;
                }
                let p = plane.to_2d(lookup.pos(v));
                let t = (p - pa).dot(ab) / len_sq;
                if !(1e-9..=1.0 - 1e-9).contains(&t) {
                    continue;
                }
                if (p - (pa + ab * t)).length_squared() < WELD_TOLERANCE * WELD_TOLERANCE {
                    on_edge.push((v, t));
                }
            }
            if on_edge.is_empty() {
                continue;
            }
            on_edge.sort_by(|x, y| x.1.partial_cmp(&y.1).unwrap_or(std::cmp::Ordering::Equal));
            on_edge.dedup_by_key(|e| e.0);
            splits.push(EdgeSplit { a, b, inserted: on_edge.into_iter().map(|e| e.0).collect() });
        }
    }
    splits
}

fn face_rings(mesh: &Mesh<DVec3>, f: FaceId) -> Vec<Vec<VertexId>> {
    match mesh.get_face(f) {
        Some(face) => std::iter::once(face.outer.clone()).chain(face.holes.iter().cloned()).collect(),
        None => Vec::new(),
    }
}

fn outline_2d(mesh: &Mesh<DVec3>, f: FaceId, plane: &Plane) -> Vec<DVec2> {
    match mesh.get_face(f) {
        Some(face) => face.outer.iter().map(|&v| plane.to_2d(mesh.position(v))).collect(),
        None => Vec::new(),
    }
}

fn draw_positions(doc: &mut Doc, plane: &Plane, positions: Vec<DVec3>, target: Option<FaceId>) -> Vec<FaceId> {
    let lookup = Lookup::new(&doc.mesh, positions.clone());
    let live_target = target.filter(|&f| doc.mesh.contains_face(f));
    let detect_plane = live_target.and_then(|f| face_plane(&lookup.mesh, f)).unwrap_or(*plane);
    let outline = live_target.map(|f| outline_2d(&lookup.mesh, f, &detect_plane)).unwrap_or_default();
    let rings = live_target.map(|f| face_rings(&lookup.mesh, f)).unwrap_or_default();

    let on_plane = |f: FaceId| is_coplanar(&lookup.mesh, f, plane);
    let fits = |v: VertexId| point_in_or_near_polygon(detect_plane.to_2d(lookup.pos(v)), &outline, FACE_FIT_TOLERANCE);
    let weld = |a: VertexId, b: VertexId| (lookup.pos(a) - lookup.pos(b)).length_squared() < WELD_TOLERANCE * WELD_TOLERANCE;
    let detect = |ids: &Vec<VertexId>, edges: &Vec<(usize, usize)>| -> Vec<DetectedFace> {
        let points: Vec<DVec2> = ids.iter().map(|&v| detect_plane.to_2d(lookup.pos(v))).collect();
        detect_faces(&points, edges)
    };
    let splits_of = |loops: &Vec<Vec<VertexId>>| edge_splits(&lookup, &detect_plane, &rings, loops);
    doc.draw_loop(&positions, target, &on_plane, &fits, &weld, &detect, &splits_of)
}

/// Resplits face `face_id` with loops of vertices already in the mesh.
fn resplit_face(doc: &mut Doc, face_id: FaceId, loops: Vec<Vec<VertexId>>) -> Vec<FaceId> {
    let Some(plane) = face_plane(&doc.mesh, face_id) else {
        return Vec::new();
    };
    let outline = outline_2d(&doc.mesh, face_id, &plane);
    let lookup = Lookup::new(&doc.mesh, Vec::new());
    let rings = face_rings(&lookup.mesh, face_id);
    let fits = |v: VertexId| point_in_or_near_polygon(plane.to_2d(lookup.pos(v)), &outline, FACE_FIT_TOLERANCE);
    let weld = |a: VertexId, b: VertexId| (lookup.pos(a) - lookup.pos(b)).length_squared() < WELD_TOLERANCE * WELD_TOLERANCE;
    let detect = |ids: &Vec<VertexId>, edges: &Vec<(usize, usize)>| -> Vec<DetectedFace> {
        let points: Vec<DVec2> = ids.iter().map(|&v| plane.to_2d(lookup.pos(v))).collect();
        detect_faces(&points, edges)
    };
    let splits_of = |l: &Vec<Vec<VertexId>>| edge_splits(&lookup, &plane, &rings, l);
    doc.resplit_face_with_loops(face_id, &loops, &fits, &weld, &detect, &splits_of)
}

fn draw_rectangle(doc: &mut Doc, plane: &Plane, a: DVec2, b: DVec2, target: Option<FaceId>) -> Vec<FaceId> {
    draw_positions(doc, plane, rectangle_points(plane, a, b), target)
}

fn draw_circle(doc: &mut Doc, plane: &Plane, center: DVec2, radius: f64, segments: usize, target: Option<FaceId>) -> Vec<FaceId> {
    draw_positions(doc, plane, circle_points(plane, center, radius, segments), target)
}

fn draw_arc(doc: &mut Doc, plane: &Plane, center: DVec2, radius: f64, start: f64, sweep: f64, segments: usize, target: Option<FaceId>) -> Vec<FaceId> {
    draw_positions(doc, plane, arc_points(plane, center, radius, start, sweep, segments), target)
}

fn draw_ngon(doc: &mut Doc, plane: &Plane, center: DVec2, radius: f64, sides: usize, start: f64, target: Option<FaceId>) -> Vec<FaceId> {
    draw_positions(doc, plane, ngon_points(plane, center, radius, sides, start), target)
}

fn draw_polygon(doc: &mut Doc, plane: &Plane, points: Vec<DVec2>, target: Option<FaceId>) -> Vec<FaceId> {
    let positions = points.iter().map(|&p| plane.to_3d(p)).collect();
    draw_positions(doc, plane, positions, target)
}

fn inset(doc: &mut Doc, face_id: FaceId, offset: f64) -> Vec<FaceId> {
    let Some(plane) = face_plane(&doc.mesh, face_id) else {
        return Vec::new();
    };
    let outline = outline_2d(&doc.mesh, face_id, &plane);
    let inset: Option<Vec<DVec3>> = offset_polygon(&outline, offset).map(|ps| ps.into_iter().map(|p| plane.to_3d(p)).collect());
    let lookup = Lookup::new(&doc.mesh, inset.clone().unwrap_or_default());
    let rings = face_rings(&lookup.mesh, face_id);
    let fits = |v: VertexId| point_in_or_near_polygon(plane.to_2d(lookup.pos(v)), &outline, FACE_FIT_TOLERANCE);
    let weld = |a: VertexId, b: VertexId| (lookup.pos(a) - lookup.pos(b)).length_squared() < WELD_TOLERANCE * WELD_TOLERANCE;
    let detect = |ids: &Vec<VertexId>, edges: &Vec<(usize, usize)>| -> Vec<DetectedFace> {
        let points: Vec<DVec2> = ids.iter().map(|&v| plane.to_2d(lookup.pos(v))).collect();
        detect_faces(&points, edges)
    };
    let splits_of = |loops: &Vec<Vec<VertexId>>| edge_splits(&lookup, &plane, &rings, loops);
    doc.inset_face(face_id, &inset, &fits, &weld, &detect, &splits_of)
}

fn push_pull(doc: &mut Doc, face_id: FaceId, distance: f64) -> Vec<FaceId> {
    if !doc.mesh.contains_face(face_id) || distance.abs() < 1e-9 {
        return Vec::new();
    }
    let step = face_normal(&doc.mesh, face_id) * distance;
    doc.push_pull(face_id, &|_f: FaceId, p: DVec3| p + step, distance >= 0.0)
}

fn push_pull_faces(doc: &mut Doc, face_ids: &[FaceId], distance: f64) -> Vec<FaceId> {
    if distance.abs() < 1e-9 {
        return Vec::new();
    }
    let steps: Vec<(FaceId, DVec3)> = face_ids
        .iter()
        .filter(|&&f| doc.mesh.contains_face(f))
        .map(|&f| (f, face_normal(&doc.mesh, f) * distance))
        .collect();
    let offset = |f: FaceId, p: DVec3| match steps.iter().find(|s| s.0 == f) {
        Some(&(_, step)) => p + step,
        None => p,
    };
    doc.push_pull_faces(face_ids, &offset, distance >= 0.0)
}

fn translate(doc: &mut Doc, face_ids: &[FaceId], delta: DVec3) {
    doc.translate_faces(face_ids, &|p: DVec3| p + delta);
}

fn ground() -> Plane {
    Plane::from_normal(DVec3::ZERO, DVec3::Z)
}

fn face_list(doc: &Doc) -> Vec<FaceId> {
    doc.mesh.face_ids()
}

fn outer_of(doc: &Doc, f: FaceId) -> Vec<VertexId> {
    doc.mesh.get_face(f).unwrap().outer.clone()
}

fn holes_of(doc: &Doc, f: FaceId) -> Vec<Vec<VertexId>> {
    doc.mesh.get_face(f).unwrap().holes.clone()
}

fn normal_of(doc: &Doc, f: FaceId) -> DVec3 {
    face_normal(&doc.mesh, f)
}

fn pos(doc: &Doc, v: VertexId) -> DVec3 {
    doc.mesh.position(v)
}

fn live_vertices(doc: &Doc) -> Vec<DVec3> {
    (0..doc.mesh.vertex_count()).map(VertexId).filter(|&v| doc.mesh.contains_vertex(v)).map(|v| doc.mesh.position(v)).collect()
}

fn manifold(doc: &Doc, faces: &[FaceId]) -> bool {
    let tris: Vec<(FaceId, Vec<[VertexId; 3]>)> = faces.iter().map(|&f| (f, triangulate_face(&doc.mesh, f))).collect();
    is_manifold(&tris)
}

fn report(doc: &Doc) -> ModelReport {
    let mesh = &doc.mesh;
    doc.check_model(&|f: FaceId| triangulate_face(mesh, f))
}

fn count_with_holes(doc: &Doc) -> usize {
    face_list(doc).into_iter().filter(|&f| !holes_of(doc, f).is_empty()).count()
}

fn polygon_area(points: &[DVec2], l: &[usize]) -> f64 {
    signed_area(&l.iter().map(|&i| points[i]).collect::<Vec<_>>())
}

fn loop_index_edges(indices: &[usize]) -> Vec<(usize, usize)> {
    (0..indices.len()).map(|i| (indices[i], indices[(i + 1) % indices.len()])).collect()
}

fn triangles_area(doc: &Doc, f: FaceId) -> f64 {
    triangulate_face(&doc.mesh, f)
        .iter()
        .map(|tri| {
            let p: Vec<DVec3> = tri.iter().map(|&v| pos(doc, v)).collect();
            (p[1] - p[0]).cross(p[2] - p[0]).length() * 0.5
        })
        .sum()
}

fn drop_to_plate(doc: &mut Doc, face_ids: &[FaceId]) {
    let present: Vec<FaceId> = face_ids.iter().copied().filter(|&f| doc.mesh.contains_face(f)).collect();
    for component in doc.mesh.connected_components(&present) {
        let (min, _) = bounding_box(&doc.mesh, &component);
        translate(doc, &component, DVec3::new(0.0, 0.0, -min.z));
    }
}

fn arrange_for_print(doc: &mut Doc) {
    let solid_ids = doc.solid_boundary_face_ids();
    let components = doc.mesh.connected_components(&solid_ids);
    if components.is_empty() {
        return;
    }
    let mut parts: Vec<(Vec<FaceId>, DVec3, DVec3)> = components
        .into_iter()
        .map(|ids| {
            let (min, max) = bounding_box(&doc.mesh, &ids);
            (ids, min, max)
        })
        .collect();
    parts.sort_by(|a, b| {
        a.1.y.partial_cmp(&b.1.y).unwrap_or(std::cmp::Ordering::Equal).then(a.1.x.partial_cmp(&b.1.x).unwrap_or(std::cmp::Ordering::Equal))
    });
    let cell_x = parts.iter().map(|p| p.2.x - p.1.x).fold(0.0, f64::max) + 10.0;
    let cell_y = parts.iter().map(|p| p.2.y - p.1.y).fold(0.0, f64::max) + 10.0;
    let cells = print_layout(parts.len());
    for (part, &(col, row)) in parts.iter().zip(cells.iter()) {
        let (ids, min, max) = part;
        let delta = DVec3::new(col as f64 * cell_x - (min.x + max.x) / 2.0, row as f64 * cell_y - (min.y + max.y) / 2.0, -min.z);
        translate(doc, ids, delta);
    }
}

fn make_box(doc: &mut Doc, origin_xy: DVec2, size: f64, z0: f64, height: f64) -> Vec<FaceId> {
    let plane = Plane::from_normal(DVec3::new(0.0, 0.0, z0), DVec3::Z);
    let sketch = draw_rectangle(doc, &plane, origin_xy, origin_xy + DVec2::new(size, size), None)[0];
    push_pull(doc, sketch, height)
}

fn xy_overlaps(a: (DVec3, DVec3), b: (DVec3, DVec3)) -> bool {
    a.0.x < b.1.x && a.1.x > b.0.x && a.0.y < b.1.y && a.1.y > b.0.y
}

fn wall_plane_and_center(doc: &Doc, wall_id: FaceId) -> (Plane, DVec2) {
    let wall_plane = face_plane(&doc.mesh, wall_id).unwrap();
    let wall_2d = outline_2d(&doc.mesh, wall_id, &wall_plane);
    let min = wall_2d.iter().cloned().reduce(DVec2::min).unwrap();
    let max = wall_2d.iter().cloned().reduce(DVec2::max).unwrap();
    (wall_plane, (min + max) * 0.5)
}

fn top_cap_at(doc: &Doc, z: f64) -> FaceId {
    face_list(doc)
        .into_iter()
        .find(|&f| normal_of(doc, f).z > 0.9 && (pos(doc, outer_of(doc, f)[0]).z - z).abs() < 1e-9)
        .expect("an upward face at that height")
}

// ---- the modeller's workflows ----

#[test]
fn draw_push_pull_and_snapshot_round_trip() {
    let mut doc = Doc::new();
    let face_id = draw_rectangle(&mut doc, &ground(), DVec2::ZERO, DVec2::new(1.0, 1.0), None)[0];
    push_pull(&mut doc, face_id, 1.0);
    let mesh = &doc.mesh;
    let snapshot = doc.snapshot(&|f: FaceId| triangulate_face(mesh, f));
    assert_eq!(snapshot.faces.len(), 6);
    assert_eq!(snapshot.vertices.len(), 8);
}

#[test]
fn draw_arc_at_180_degrees_is_a_pushable_manifold_semicircle() {
    let mut doc = Doc::new();
    let face_ids = draw_arc(&mut doc, &ground(), DVec2::ZERO, 5.0, 0.0, 180.0, 16, None);
    assert_eq!(face_ids.len(), 1);
    let new_faces = push_pull(&mut doc, face_ids[0], 3.0);
    assert!(manifold(&doc, &new_faces), "extruded semicircle should be a watertight solid");
}

#[test]
fn arc_inset_then_pushpull_makes_a_hollow_manifold_half_pipe() {
    let mut doc = Doc::new();
    let face_id = draw_arc(&mut doc, &ground(), DVec2::ZERO, 10.0, 0.0, 180.0, 16, None)[0];
    let inset_faces = inset(&mut doc, face_id, 1.0);
    assert_eq!(inset_faces.len(), 2);
    let frame_id = inset_faces.iter().copied().find(|&id| !holes_of(&doc, id).is_empty()).expect("a frame face with a hole");
    let new_faces = push_pull(&mut doc, frame_id, 4.0);
    assert!(manifold(&doc, &new_faces), "extruded arc frame should be a hollow, watertight half-pipe");
}

#[test]
fn draw_polygon_creates_a_pushable_face() {
    let mut doc = Doc::new();
    let points = vec![
        DVec2::new(0.0, 0.0),
        DVec2::new(2.0, 0.0),
        DVec2::new(2.0, 1.0),
        DVec2::new(1.0, 1.0),
        DVec2::new(1.0, 2.0),
        DVec2::new(0.0, 2.0),
    ];
    let face_ids = draw_polygon(&mut doc, &ground(), points, None);
    assert_eq!(face_ids.len(), 1);
    assert_eq!(outer_of(&doc, face_ids[0]).len(), 6);
    let new_faces = push_pull(&mut doc, face_ids[0], 1.0);
    assert!(manifold(&doc, &new_faces));
}

#[test]
fn draw_polygon_with_fewer_than_three_points_does_nothing() {
    let mut doc = Doc::new();
    let face_ids = draw_polygon(&mut doc, &ground(), vec![DVec2::ZERO, DVec2::new(1.0, 0.0)], None);
    assert!(face_ids.is_empty());
    assert!(face_list(&doc).is_empty());
}

#[test]
fn an_earlier_solid_left_coplanar_with_the_ground_stays_out_of_later_resplits() {
    let mut doc = Doc::new();
    let plane = ground();
    let first_id = draw_rectangle(&mut doc, &plane, DVec2::new(-10.0, -10.0), DVec2::new(-8.0, -8.0), None)[0];
    push_pull(&mut doc, first_id, -2.0);
    let solid_face_count = face_list(&doc).len();
    assert_eq!(solid_face_count, 6);

    draw_circle(&mut doc, &plane, DVec2::ZERO, 5.0, 16, None);
    draw_circle(&mut doc, &plane, DVec2::ZERO, 2.0, 16, None);

    assert_eq!(face_list(&doc).len(), solid_face_count + 2, "old solid's faces must be untouched");
    assert_eq!(count_with_holes(&doc), 1, "only the new outer ring should have a hole");
}

#[test]
fn drawing_a_circle_inside_another_auto_splits_into_ring_and_inner_face() {
    let mut doc = Doc::new();
    draw_circle(&mut doc, &ground(), DVec2::ZERO, 5.0, 16, None);
    draw_circle(&mut doc, &ground(), DVec2::ZERO, 2.0, 16, None);
    assert_eq!(face_list(&doc).len(), 2);
    assert_eq!(count_with_holes(&doc), 1, "exactly one face (the outer ring) should have a hole");
}

#[test]
fn erasing_inner_circle_leaves_the_outer_as_a_printable_ring() {
    let mut doc = Doc::new();
    draw_circle(&mut doc, &ground(), DVec2::ZERO, 5.0, 16, None);
    draw_circle(&mut doc, &ground(), DVec2::ZERO, 2.0, 16, None);
    let inner = face_list(&doc).into_iter().find(|&f| holes_of(&doc, f).is_empty()).unwrap();
    doc.erase_face(inner);
    assert_eq!(face_list(&doc).len(), 1);
    let ring_id = face_list(&doc)[0];
    assert_eq!(holes_of(&doc, ring_id).len(), 1, "the outer face keeps its hole");
    let new_faces = push_pull(&mut doc, ring_id, 3.0);
    assert!(manifold(&doc, &new_faces), "extruded ring should be a hollow, watertight tube");
}

#[test]
fn draw_ngon_creates_a_pushable_hexagon() {
    let mut doc = Doc::new();
    let face_id = draw_ngon(&mut doc, &ground(), DVec2::ZERO, 5.0, 6, 0.0, None)[0];
    assert_eq!(outer_of(&doc, face_id).len(), 6);
    let new_faces = push_pull(&mut doc, face_id, 3.0);
    assert!(manifold(&doc, &new_faces), "extruded hexagon should be a watertight solid");
}

#[test]
fn drawing_an_ngon_inside_a_circle_auto_splits_into_ring_and_inner_face() {
    let mut doc = Doc::new();
    draw_circle(&mut doc, &ground(), DVec2::ZERO, 5.0, 16, None);
    draw_ngon(&mut doc, &ground(), DVec2::ZERO, 2.0, 6, 0.0, None);
    assert_eq!(face_list(&doc).len(), 2);
    assert_eq!(count_with_holes(&doc), 1);
}

#[test]
fn inset_face_splits_a_rectangle_into_an_inner_face_and_a_framed_hole() {
    let mut doc = Doc::new();
    let face_id = draw_rectangle(&mut doc, &ground(), DVec2::ZERO, DVec2::new(10.0, 10.0), None)[0];
    let new_faces = inset(&mut doc, face_id, 2.0);
    assert_eq!(new_faces.len(), 2);
    assert_eq!(face_list(&doc).len(), 2);
    assert_eq!(count_with_holes(&doc), 1, "the outer frame should have the inset loop as a hole");
    let inner = face_list(&doc).into_iter().find(|&f| holes_of(&doc, f).is_empty()).unwrap();
    assert_eq!(outer_of(&doc, inner).len(), 4);
    for v in outer_of(&doc, inner) {
        let p = pos(&doc, v);
        assert!(p.x > 1.9 && p.x < 8.1 && p.y > 1.9 && p.y < 8.1);
    }
}

#[test]
fn inset_face_preserves_group_and_solid_membership() {
    let mut doc = Doc::new();
    let face_id = draw_rectangle(&mut doc, &ground(), DVec2::ZERO, DVec2::new(10.0, 10.0), None)[0];
    let group_id = doc.group_faces(&[face_id], "panel".to_string());
    let new_faces = inset(&mut doc, face_id, 2.0);
    let members = doc.get_group(group_id).unwrap().face_ids.clone();
    assert_eq!(members.len(), 2);
    for f in new_faces {
        assert!(members.contains(&f));
    }
}

#[test]
fn inset_face_on_a_triangle_produces_a_non_overlapping_frame_triangulation() {
    let mut doc = Doc::new();
    let points = vec![DVec2::new(0.0, 0.0), DVec2::new(4.0, 0.0), DVec2::new(2.0, 3.0)];
    let tri_id = draw_polygon(&mut doc, &ground(), points, None)[0];
    let new_faces = inset(&mut doc, tri_id, 0.3);
    let frame_id = *new_faces.iter().find(|&&f| !holes_of(&doc, f).is_empty()).unwrap();
    let total = triangles_area(&doc, frame_id);
    assert!(total < 6.0, "frame triangulation area ({total}) exceeds the original face's area");
}

#[test]
fn inset_face_on_an_angled_push_pull_side_wall_produces_a_non_overlapping_frame() {
    let mut doc = Doc::new();
    let points = vec![DVec2::new(0.0, 0.0), DVec2::new(4.0, 0.0), DVec2::new(2.0, 3.0)];
    let tri_id = draw_polygon(&mut doc, &ground(), points, None)[0];
    let solid_faces = push_pull(&mut doc, tri_id, 2.0);
    let angled_id = solid_faces
        .iter()
        .copied()
        .find(|&f| {
            let n = normal_of(&doc, f);
            n.z.abs() < 0.01 && n.x.abs() > 0.05 && n.y.abs() > 0.05
        })
        .expect("a side wall with a non-axis-aligned normal");
    let wall_area = {
        let p: Vec<DVec3> = outer_of(&doc, angled_id).iter().map(|&v| pos(&doc, v)).collect();
        (p[1] - p[0]).cross(p[2] - p[0]).length() * 0.5 + (p[2] - p[0]).cross(p[3] - p[0]).length() * 0.5
    };
    let new_faces = inset(&mut doc, angled_id, 0.3);
    assert!(!new_faces.is_empty());
    let frame_id = *new_faces.iter().find(|&&f| !holes_of(&doc, f).is_empty()).unwrap();
    let total = triangles_area(&doc, frame_id);
    assert!(total < wall_area, "frame triangulation area ({total}) exceeds the wall's area ({wall_area})");
}

#[test]
fn inset_face_with_an_offset_too_large_for_the_shape_is_a_no_op() {
    let mut doc = Doc::new();
    let face_id = draw_rectangle(&mut doc, &ground(), DVec2::ZERO, DVec2::new(2.0, 2.0), None)[0];
    assert_eq!(inset(&mut doc, face_id, 5.0), Vec::new());
    assert_eq!(face_list(&doc).len(), 1, "the original face must be untouched");
}

#[test]
fn inset_face_with_a_stale_face_id_is_a_no_op_not_a_panic() {
    let mut doc = Doc::new();
    let face_id = draw_rectangle(&mut doc, &ground(), DVec2::ZERO, DVec2::new(2.0, 2.0), None)[0];
    doc.erase_face(face_id);
    assert_eq!(inset(&mut doc, face_id, 0.5), Vec::new());
    let nothing: Option<Vec<DVec3>> = None;
    let never = |_v: VertexId| true;
    let same = |a: VertexId, b: VertexId| a == b;
    let none = |_ids: &Vec<VertexId>, _e: &Vec<(usize, usize)>| -> Vec<DetectedFace> { Vec::new() };
    let no_splits = |_l: &Vec<Vec<VertexId>>| -> Vec<EdgeSplit> { Vec::new() };
    assert_eq!(doc.inset_face(face_id, &nothing, &never, &same, &none, &no_splits), Vec::new());
}

#[test]
fn pulling_a_solids_cap_extends_it_into_one_manifold_solid() {
    let mut doc = Doc::new();
    let sketch_id = draw_rectangle(&mut doc, &ground(), DVec2::ZERO, DVec2::new(1.0, 1.0), None)[0];
    let box_faces = push_pull(&mut doc, sketch_id, 1.0);
    let top_cap = box_faces.iter().copied().find(|&f| normal_of(&doc, f).z > 0.9).expect("an upward cap");
    push_pull(&mut doc, top_cap, 1.0);
    let all_faces = face_list(&doc);
    assert_eq!(all_faces.len(), 10);
    assert!(manifold(&doc, &all_faces), "extended box must stay watertight");
    let top_z = live_vertices(&doc).iter().map(|p| p.z).fold(f64::MIN, f64::max);
    assert!((top_z - 2.0).abs() < 1e-9);
}

fn slab_top_cap(doc: &Doc) -> FaceId {
    face_list(doc)
        .into_iter()
        .find(|&f| normal_of(doc, f).z > 0.9 && outer_of(doc, f).len() == 4 && (pos(doc, outer_of(doc, f)[0]).z - 2.0).abs() < 1e-9)
        .expect("slab top cap")
}

#[test]
fn a_second_stud_drawn_on_a_solid_keeps_the_first_stud_watertight() {
    let mut doc = Doc::new();
    let sketch_id = draw_rectangle(&mut doc, &ground(), DVec2::ZERO, DVec2::new(30.0, 10.0), None)[0];
    push_pull(&mut doc, sketch_id, 2.0);
    let top_plane = Plane::from_normal(DVec3::new(0.0, 0.0, 2.0), DVec3::Z);

    let cap = slab_top_cap(&doc);
    let split = draw_circle(&mut doc, &top_plane, DVec2::new(7.0, 5.0), 3.0, 16, Some(cap));
    let disc = split.iter().copied().find(|&f| holes_of(&doc, f).is_empty()).unwrap();
    push_pull(&mut doc, disc, 3.0);
    assert!(manifold(&doc, &doc.solid_boundary_face_ids()), "one stud on a slab must be watertight");

    let cap = slab_top_cap(&doc);
    draw_circle(&mut doc, &top_plane, DVec2::new(23.0, 5.0), 3.0, 16, Some(cap));
    assert!(manifold(&doc, &doc.solid_boundary_face_ids()), "a second circle must not refill the first stud's rim");

    let second_disc = face_list(&doc)
        .into_iter()
        .find(|&f| normal_of(&doc, f).z > 0.9 && holes_of(&doc, f).is_empty() && (pos(&doc, outer_of(&doc, f)[0]).z - 2.0).abs() < 1e-9)
        .expect("the new circle's disc");
    push_pull(&mut doc, second_disc, 3.0);
    assert!(manifold(&doc, &doc.solid_boundary_face_ids()), "two studs on one slab must be watertight");
}

#[test]
fn drawing_elsewhere_on_the_ground_does_not_refill_an_erased_hole() {
    let mut doc = Doc::new();
    let plane = ground();
    draw_rectangle(&mut doc, &plane, DVec2::ZERO, DVec2::new(10.0, 10.0), None);
    let split = draw_circle(&mut doc, &plane, DVec2::new(5.0, 5.0), 2.0, 16, None);
    let disc = split.iter().copied().find(|&f| holes_of(&doc, f).is_empty()).unwrap();
    doc.erase_face(disc);
    assert_eq!(face_list(&doc).len(), 1, "a ring: one face with one hole");
    assert_eq!(holes_of(&doc, face_list(&doc)[0]).len(), 1);

    draw_rectangle(&mut doc, &plane, DVec2::new(20.0, 20.0), DVec2::new(25.0, 25.0), None);

    let ring = face_list(&doc)
        .into_iter()
        .find(|&f| outer_of(&doc, f).iter().any(|&v| pos(&doc, v).x < 15.0))
        .expect("the ring");
    assert_eq!(holes_of(&doc, ring).len(), 1, "the ring must still have its hole");
    assert_eq!(face_list(&doc).len(), 2, "just the ring and the new rectangle - no refilled disc");
}

#[test]
fn raised_panel_greeble_stays_manifold() {
    let mut doc = Doc::new();
    let sketch_id = draw_rectangle(&mut doc, &ground(), DVec2::ZERO, DVec2::new(10.0, 10.0), None)[0];
    let box_faces = push_pull(&mut doc, sketch_id, 2.0);
    let top_cap = box_faces.iter().copied().find(|&f| normal_of(&doc, f).z > 0.9).unwrap();
    let split = inset(&mut doc, top_cap, 2.0);
    let inner = split.iter().copied().find(|&f| holes_of(&doc, f).is_empty()).unwrap();
    push_pull(&mut doc, inner, 1.0);
    assert!(manifold(&doc, &face_list(&doc)), "raised panel must stay watertight");
}

#[test]
fn recessed_panel_greeble_stays_manifold() {
    let mut doc = Doc::new();
    let sketch_id = draw_rectangle(&mut doc, &ground(), DVec2::ZERO, DVec2::new(10.0, 10.0), None)[0];
    let box_faces = push_pull(&mut doc, sketch_id, 2.0);
    let top_cap = box_faces.iter().copied().find(|&f| normal_of(&doc, f).z > 0.9).unwrap();
    let split = inset(&mut doc, top_cap, 2.0);
    let inner = split.iter().copied().find(|&f| holes_of(&doc, f).is_empty()).unwrap();
    push_pull(&mut doc, inner, -0.5);
    assert!(manifold(&doc, &face_list(&doc)), "recessed panel must stay watertight");
    let floor = face_list(&doc)
        .into_iter()
        .find(|&f| outer_of(&doc, f).iter().all(|&v| (pos(&doc, v).z - 1.5).abs() < 1e-9))
        .expect("recess floor at z=1.5");
    assert!(normal_of(&doc, floor).z > 0.9, "recess floor normal should point up");
}

#[test]
fn moving_part_of_a_solid_keeps_every_affected_normal_accurate() {
    let mut doc = Doc::new();
    let sketch_id = draw_rectangle(&mut doc, &ground(), DVec2::ZERO, DVec2::new(1.0, 1.0), None)[0];
    let box_faces = push_pull(&mut doc, sketch_id, 1.0);
    let top_cap = box_faces.iter().copied().find(|&f| normal_of(&doc, f).z > 0.9).unwrap();
    translate(&mut doc, &[top_cap], DVec3::new(0.5, 0.0, 0.0));
    // The two walls the shear tilts now lean along x; their normals follow
    // the moved corners.
    let tilted = box_faces.iter().filter(|&&f| {
        let n = normal_of(&doc, f);
        n.x.abs() > 0.1 && n.z.abs() > 0.1
    });
    assert_eq!(tilted.count(), 2);
    assert!(manifold(&doc, &box_faces));
}

#[test]
fn push_pull_with_zero_distance_keeps_group_and_solid_membership() {
    let mut doc = Doc::new();
    let sketch_id = draw_rectangle(&mut doc, &ground(), DVec2::ZERO, DVec2::new(1.0, 1.0), None)[0];
    let box_faces = push_pull(&mut doc, sketch_id, 1.0);
    let group_id = doc.group_faces(&box_faces, "hull".to_string());
    let cap = box_faces[0];
    assert!(push_pull(&mut doc, cap, 0.0).is_empty());
    assert!(doc.get_group(group_id).unwrap().face_ids.contains(&cap));
    assert_eq!(doc.solid_boundary_face_ids().len(), 6);
}

#[test]
fn mirroring_a_hollow_ring_stays_manifold() {
    let mut doc = Doc::new();
    draw_circle(&mut doc, &ground(), DVec2::new(10.0, 0.0), 5.0, 16, None);
    draw_circle(&mut doc, &ground(), DVec2::new(10.0, 0.0), 2.0, 16, None);
    let inner = face_list(&doc).into_iter().find(|&f| holes_of(&doc, f).is_empty()).unwrap();
    doc.erase_face(inner);
    let ring_id = face_list(&doc)[0];
    let tube_faces = push_pull(&mut doc, ring_id, 3.0);
    let mirrored = doc.mirror_faces(&tube_faces, &|p: DVec3| DVec3::new(-p.x, p.y, p.z));
    assert!(manifold(&doc, &mirrored), "mirrored hollow tube must stay manifold");
}

#[test]
fn drawing_a_rectangle_on_a_solids_side_wall_splits_just_that_wall() {
    let mut doc = Doc::new();
    let sketch_id = draw_rectangle(&mut doc, &ground(), DVec2::ZERO, DVec2::new(10.0, 10.0), None)[0];
    let box_faces = push_pull(&mut doc, sketch_id, 4.0);
    let group_id = doc.group_faces(&box_faces, "hull".to_string());
    let wall_id = box_faces.iter().copied().find(|&f| normal_of(&doc, f).z.abs() < 0.01).unwrap();
    let (wall_plane, center) = wall_plane_and_center(&doc, wall_id);
    let new_faces = draw_rectangle(&mut doc, &wall_plane, center - DVec2::new(1.0, 1.0), center + DVec2::new(1.0, 1.0), Some(wall_id));
    assert_eq!(new_faces.len(), 2, "the wall should split into a framed hole + an inner panel");
    assert_eq!(face_list(&doc).len(), 7);
    assert_eq!(new_faces.iter().filter(|&&f| !holes_of(&doc, f).is_empty()).count(), 1);
    let members = doc.get_group(group_id).unwrap().face_ids.clone();
    for f in new_faces {
        assert!(doc.solid_boundary_face_ids().contains(&f), "split wall pieces must stay solid-flagged");
        assert!(members.contains(&f), "split wall pieces must stay in the wall's group");
    }
}

#[test]
fn drawing_on_a_face_with_a_corner_nearly_matching_an_existing_vertex_does_not_corrupt_the_face() {
    let mut doc = Doc::new();
    let sketch_id = draw_rectangle(&mut doc, &ground(), DVec2::ZERO, DVec2::new(10.0, 10.0), None)[0];
    let box_faces = push_pull(&mut doc, sketch_id, 4.0);
    let top_id = box_faces.iter().copied().find(|&f| normal_of(&doc, f).z > 0.9).unwrap();
    let top_plane = face_plane(&doc.mesh, top_id).unwrap();
    let corner_2d = outline_2d(&doc.mesh, top_id, &top_plane)[0];
    let triangle = vec![corner_2d, corner_2d + DVec2::new(3.0, 1.0), corner_2d + DVec2::new(1.0, 3.0)];
    let new_faces = draw_polygon(&mut doc, &top_plane, triangle, Some(top_id));
    assert_eq!(new_faces.len(), 2, "the top face should split into a framed hole + an inner panel");
    for f in new_faces {
        assert!(outer_of(&doc, f).len() >= 3);
        for v in outer_of(&doc, f) {
            assert!((pos(&doc, v).z - 4.0).abs() < 1e-6, "a corrupted split would leave the top face's plane");
        }
    }
}

fn stud_triangle(doc: &Doc, plane: &Plane, outer: &[VertexId], corner_3d: DVec3) -> Vec<DVec2> {
    let outer_2d: Vec<DVec2> = outer.iter().map(|&v| plane.to_2d(pos(doc, v))).collect();
    let centroid = outer_2d.iter().fold(DVec2::ZERO, |acc, &p| acc + p) / outer_2d.len() as f64;
    let corner_2d = plane.to_2d(corner_3d);
    let nearest = (0..outer_2d.len())
        .min_by(|&a, &b| (outer_2d[a] - corner_2d).length_squared().partial_cmp(&(outer_2d[b] - corner_2d).length_squared()).unwrap())
        .unwrap();
    let adjacent = outer_2d[(nearest + 1) % outer_2d.len()];
    let p1 = corner_2d * 0.7 + centroid * 0.3;
    let p2 = corner_2d * 0.7 + adjacent * 0.15 + centroid * 0.15;
    vec![corner_2d, p1, p2]
}

#[test]
fn studs_on_two_adjacent_faces_snapped_to_the_same_corner_stay_watertight() {
    let mut doc = Doc::new();
    let sketch_id = draw_rectangle(&mut doc, &ground(), DVec2::ZERO, DVec2::new(10.0, 10.0), None)[0];
    let box_faces = push_pull(&mut doc, sketch_id, 4.0);
    let top_id = box_faces.iter().copied().find(|&f| normal_of(&doc, f).z > 0.9).unwrap();
    let wall_id = box_faces.iter().copied().find(|&f| normal_of(&doc, f).z.abs() < 0.01).unwrap();
    let top = outer_of(&doc, top_id);
    let wall = outer_of(&doc, wall_id);
    let shared = *top.iter().find(|v| wall.contains(v)).expect("top and wall share an edge");
    let corner = pos(&doc, shared);
    let near_1 = corner + DVec3::new(2e-5, -3e-5, 1e-5);
    let near_2 = corner + DVec3::new(-1e-5, 2e-5, -2e-5);

    let top_plane = face_plane(&doc.mesh, top_id).unwrap();
    let tri_a = stud_triangle(&doc, &top_plane, &top, near_1);
    let stud_a = draw_polygon(&mut doc, &top_plane, tri_a, Some(top_id));
    assert_eq!(stud_a.len(), 2, "top face should split into a framed hole + inner panel");
    let stud_a_cap = stud_a.iter().copied().find(|&f| holes_of(&doc, f).is_empty()).unwrap();
    push_pull_faces(&mut doc, &[stud_a_cap], 1.0);

    let wall_plane = face_plane(&doc.mesh, wall_id).unwrap();
    let tri_b = stud_triangle(&doc, &wall_plane, &wall, near_2);
    let stud_b = draw_polygon(&mut doc, &wall_plane, tri_b, Some(wall_id));
    assert_eq!(stud_b.len(), 2, "wall should split into a framed hole + inner panel");
    let stud_b_cap = stud_b.iter().copied().find(|&f| holes_of(&doc, f).is_empty()).unwrap();
    push_pull_faces(&mut doc, &[stud_b_cap], 1.0);

    assert!(manifold(&doc, &doc.solid_boundary_face_ids()), "two studs snapped to the same corner must stay watertight");
}

#[test]
fn a_rectangle_sharing_a_corner_with_its_target_face_splits_it_correctly() {
    let mut doc = Doc::new();
    let sketch_id = draw_rectangle(&mut doc, &ground(), DVec2::ZERO, DVec2::new(10.0, 10.0), None)[0];
    let box_faces = push_pull(&mut doc, sketch_id, 4.0);
    let top_id = box_faces.iter().copied().find(|&f| normal_of(&doc, f).z > 0.9).unwrap();
    let top_plane = face_plane(&doc.mesh, top_id).unwrap();
    let corner_2d = top_plane.to_2d(pos(&doc, outer_of(&doc, top_id)[0]));
    let new_faces = draw_rectangle(&mut doc, &top_plane, corner_2d, corner_2d + DVec2::new(5.0, 5.0), Some(top_id));
    assert_eq!(new_faces.len(), 2, "the corner-stud footprint and the remaining L-shaped area");
    assert!(!doc.mesh.contains_face(top_id), "the original top face is replaced by the split");
    for &f in &new_faces {
        for v in outer_of(&doc, f) {
            assert!((pos(&doc, v).z - 4.0).abs() < 1e-6);
        }
    }
    assert_eq!(report(&doc).broken_part_count, 0, "the split must stay watertight");
}

#[test]
fn a_t_junction_on_an_edge_shared_between_two_flat_sketches_survives_extrusion() {
    let mut doc = Doc::new();
    let plane = ground();
    draw_rectangle(&mut doc, &plane, DVec2::ZERO, DVec2::new(20.0, 20.0), None);
    draw_rectangle(&mut doc, &plane, DVec2::ZERO, DVec2::new(10.0, 10.0), None);
    let flat_face = |doc: &Doc, want_len: usize| -> FaceId {
        face_list(doc)
            .into_iter()
            .find(|&f| outer_of(doc, f).len() == want_len && !doc.is_solid(f))
            .expect("a flat sketch face with that many corners")
    };
    let l_shape = flat_face(&doc, 6);
    let split = draw_rectangle(&mut doc, &plane, DVec2::new(10.0, 5.0), DVec2::new(15.0, 2.0), Some(l_shape));
    assert!(!split.is_empty(), "a T-junction sketch on a flat face must still be accepted");
    let square = flat_face(&doc, 4);
    push_pull(&mut doc, square, 3.0);
    let r = report(&doc);
    assert_eq!(r.broken_part_count, 0, "{} duplicate, {} open", r.duplicate_edges.len(), r.open_edges.len());
}

#[test]
fn a_second_corner_stud_on_the_resulting_concave_face_stays_watertight() {
    let mut doc = Doc::new();
    let sketch_id = draw_rectangle(&mut doc, &ground(), DVec2::ZERO, DVec2::new(20.0, 20.0), None)[0];
    push_pull(&mut doc, sketch_id, 4.0);
    let top_plane = Plane::from_normal(DVec3::new(0.0, 0.0, 4.0), DVec3::Z);

    let cap = top_cap_at(&doc, 4.0);
    let split_1 = draw_rectangle(&mut doc, &top_plane, DVec2::ZERO, DVec2::new(8.0, 8.0), Some(cap));
    assert_eq!(split_1.len(), 2, "corner stud footprint + concave remainder");
    let stud_1 = split_1.iter().copied().find(|&f| outer_of(&doc, f).len() == 4).unwrap();
    push_pull(&mut doc, stud_1, 3.0);
    assert_eq!(report(&doc).broken_part_count, 0, "the first corner stud is watertight");

    let l_face = top_cap_at(&doc, 4.0);
    assert_eq!(outer_of(&doc, l_face).len(), 6, "the remainder really is the concave L-shape");
    let split_2 = draw_rectangle(&mut doc, &top_plane, DVec2::new(12.0, 12.0), DVec2::new(20.0, 20.0), Some(l_face));
    assert_eq!(split_2.len(), 2, "the concave face must split, not be rejected");
    let stud_2 = split_2.iter().copied().find(|&f| outer_of(&doc, f).len() == 4).unwrap();
    push_pull(&mut doc, stud_2, 5.0);
    let r = report(&doc);
    assert_eq!(r.broken_part_count, 0, "{} duplicate, {} open", r.duplicate_edges.len(), r.open_edges.len());
}

#[test]
fn a_sketch_touching_an_existing_studs_rim_does_not_refill_that_rim() {
    let mut doc = Doc::new();
    let sketch_id = draw_rectangle(&mut doc, &ground(), DVec2::ZERO, DVec2::new(20.0, 20.0), None)[0];
    push_pull(&mut doc, sketch_id, 4.0);
    let top_plane = Plane::from_normal(DVec3::new(0.0, 0.0, 4.0), DVec3::Z);

    let cap = top_cap_at(&doc, 4.0);
    let split = draw_rectangle(&mut doc, &top_plane, DVec2::new(5.0, 5.0), DVec2::new(15.0, 15.0), Some(cap));
    let stud_cap = split.iter().copied().find(|&f| holes_of(&doc, f).is_empty()).unwrap();
    push_pull(&mut doc, stud_cap, 3.0);
    assert_eq!(report(&doc).broken_part_count, 0, "one stud on a box is watertight");

    let cap = top_cap_at(&doc, 4.0);
    draw_rectangle(&mut doc, &top_plane, DVec2::new(10.0, 5.0), DVec2::new(18.0, 2.0), Some(cap));
    let r = report(&doc);
    assert_eq!(r.broken_part_count, 0, "touching a stud's rim must not refill it: {} duplicate, {} open", r.duplicate_edges.len(), r.open_edges.len());

    let cap = top_cap_at(&doc, 4.0);
    draw_rectangle(&mut doc, &top_plane, DVec2::new(2.0, 16.0), DVec2::new(8.0, 19.0), Some(cap));
    let r = report(&doc);
    assert_eq!(r.broken_part_count, 0, "a later sketch must not refill the merged hole: {} duplicate, {} open", r.duplicate_edges.len(), r.open_edges.len());
}

#[test]
fn pushing_a_corner_stud_sketch_into_a_real_stud_stays_watertight() {
    let mut doc = Doc::new();
    let sketch_id = draw_rectangle(&mut doc, &ground(), DVec2::ZERO, DVec2::new(10.0, 10.0), None)[0];
    let box_faces = push_pull(&mut doc, sketch_id, 4.0);
    let top_id = box_faces.iter().copied().find(|&f| normal_of(&doc, f).z > 0.9).unwrap();
    let top_plane = face_plane(&doc.mesh, top_id).unwrap();
    let corner_2d = top_plane.to_2d(pos(&doc, outer_of(&doc, top_id)[0]));
    let new_faces = draw_rectangle(&mut doc, &top_plane, corner_2d, corner_2d + DVec2::new(5.0, 5.0), Some(top_id));
    let stud_cap = new_faces.iter().copied().find(|&f| outer_of(&doc, f).len() == 4).expect("the corner-stud footprint");
    push_pull(&mut doc, stud_cap, 3.0);
    assert_eq!(report(&doc).broken_part_count, 0, "a stud pushed up from a T-junction split must stay watertight");
}

#[test]
fn resplitting_a_face_with_a_loop_that_lands_on_the_wrong_neighboring_face_is_rejected() {
    let mut doc = Doc::new();
    let sketch_id = draw_rectangle(&mut doc, &ground(), DVec2::ZERO, DVec2::new(10.0, 10.0), None)[0];
    let box_faces = push_pull(&mut doc, sketch_id, 4.0);
    let left_id = box_faces
        .iter()
        .copied()
        .find(|&f| {
            let n = normal_of(&doc, f);
            n.z.abs() < 0.01 && n.x.abs() > 0.9
        })
        .unwrap();
    let faces_before = face_list(&doc).len();

    let wrong_loop = draw_rectangle(&mut doc, &ground(), DVec2::new(0.0, 0.0), DVec2::new(20.0, 20.0), None);
    let wrong_loop_vertices = outer_of(&doc, wrong_loop[0]);
    doc.mesh.remove_face(wrong_loop[0]);

    let new_faces = resplit_face(&mut doc, left_id, vec![wrong_loop_vertices]);
    assert!(new_faces.is_empty(), "a loop mostly outside the target face must be rejected");
    assert_eq!(face_list(&doc).len(), faces_before, "the document must be left as it was");
}

#[test]
fn pushing_a_face_drawn_on_a_solid_wall_stays_manifold() {
    let mut doc = Doc::new();
    let sketch_id = draw_rectangle(&mut doc, &ground(), DVec2::ZERO, DVec2::new(10.0, 10.0), None)[0];
    let box_faces = push_pull(&mut doc, sketch_id, 4.0);
    let wall_id = box_faces.iter().copied().find(|&f| normal_of(&doc, f).z.abs() < 0.01).unwrap();
    let (wall_plane, center) = wall_plane_and_center(&doc, wall_id);
    let split = draw_rectangle(&mut doc, &wall_plane, center - DVec2::new(1.0, 1.0), center + DVec2::new(1.0, 1.0), Some(wall_id));
    let inner = *split.iter().find(|&&f| holes_of(&doc, f).is_empty()).unwrap();
    push_pull(&mut doc, inner, -0.5);
    assert!(manifold(&doc, &face_list(&doc)), "porthole recess must keep the whole solid watertight");
}

#[test]
fn drawing_on_a_target_face_does_not_disturb_other_coplanar_sketches() {
    let mut doc = Doc::new();
    let plane = ground();
    draw_rectangle(&mut doc, &plane, DVec2::ZERO, DVec2::new(10.0, 10.0), None);
    draw_rectangle(&mut doc, &plane, DVec2::new(20.0, 20.0), DVec2::new(21.0, 21.0), None);
    assert_eq!(face_list(&doc).len(), 2);
    let target_id = face_list(&doc).into_iter().find(|&f| pos(&doc, outer_of(&doc, f)[0]).x < 15.0).unwrap();
    let split = draw_rectangle(&mut doc, &plane, DVec2::new(4.0, 4.0), DVec2::new(6.0, 6.0), Some(target_id));
    assert_eq!(split.len(), 2);
    assert_eq!(face_list(&doc).len(), 3);
    let untouched = face_list(&doc)
        .into_iter()
        .any(|f| outer_of(&doc, f).len() == 4 && holes_of(&doc, f).is_empty() && pos(&doc, outer_of(&doc, f)[0]).x > 15.0);
    assert!(untouched, "the unrelated second sketch rectangle must be unchanged");
}

#[test]
fn drawing_with_a_stale_target_face_falls_back_to_the_plain_resplit() {
    let mut doc = Doc::new();
    let plane = ground();
    let stale_id = draw_rectangle(&mut doc, &plane, DVec2::ZERO, DVec2::new(1.0, 1.0), None)[0];
    doc.erase_face(stale_id);
    let new_faces = draw_rectangle(&mut doc, &plane, DVec2::new(2.0, 2.0), DVec2::new(3.0, 3.0), Some(stale_id));
    assert_eq!(new_faces.len(), 1, "a stale target falls back to the plain resplit");
    assert_eq!(outer_of(&doc, new_faces[0]).len(), 4);
}

#[test]
fn a_drawn_rectangle_reloads_at_the_same_positions() {
    let mut doc = Doc::new();
    draw_rectangle(&mut doc, &ground(), DVec2::new(1.5, -2.5), DVec2::new(4.0, 3.0), None);
    let project = doc.to_project_file();
    let reloaded = Doc::from_project_file(&project, &|p: DVec3| p.is_finite());
    let sorted = |d: &Doc| {
        let f = face_list(d)[0];
        let mut ps: Vec<DVec3> = outer_of(d, f).iter().map(|&v| pos(d, v)).collect();
        ps.sort_by(|a, b| a.x.partial_cmp(&b.x).unwrap().then(a.y.partial_cmp(&b.y).unwrap()));
        ps
    };
    for (a, b) in sorted(&doc).iter().zip(sorted(&reloaded).iter()) {
        assert!((*a - *b).length() < 1e-9);
    }
}

#[test]
fn undoing_a_corner_stud_sketch_restores_the_neighboring_walls_split_edge() {
    let mut history = History::new(Doc::new());
    history.record();
    let sketch_id = draw_rectangle(&mut history.document, &ground(), DVec2::ZERO, DVec2::new(10.0, 10.0), None)[0];
    history.record();
    let box_faces = push_pull(&mut history.document, sketch_id, 4.0);
    let loop_sizes = |doc: &Doc| -> Vec<usize> {
        let mut sizes: Vec<usize> = face_list(doc).into_iter().map(|f| outer_of(doc, f).len()).collect();
        sizes.sort_unstable();
        sizes
    };
    let before = loop_sizes(&history.document);
    let top_id = box_faces.iter().copied().find(|&f| normal_of(&history.document, f).z > 0.9).unwrap();
    let top_plane = face_plane(&history.document.mesh, top_id).unwrap();
    let corner = top_plane.to_2d(pos(&history.document, outer_of(&history.document, top_id)[0]));
    history.record();
    draw_rectangle(&mut history.document, &top_plane, corner, corner + DVec2::new(5.0, 5.0), Some(top_id));
    let after = loop_sizes(&history.document);
    assert_ne!(after, before, "the sketch must have split the cap and grown two walls");
    assert_eq!(after.iter().filter(|&&n| n == 5).count(), 2, "both walls sharing the split edge gain one T-junction vertex");
    history.undo();
    assert_eq!(loop_sizes(&history.document), before, "undo must restore the in-place edits of the walls");
}

#[test]
fn an_array_of_drawn_boxes_undoes_in_one_step() {
    let mut history = History::new(Doc::new());
    history.record();
    let sketch_id = draw_rectangle(&mut history.document, &ground(), DVec2::ZERO, DVec2::new(1.0, 1.0), None)[0];
    history.record();
    let box_faces = push_pull(&mut history.document, sketch_id, 1.0);
    let faces_before = face_list(&history.document).len();
    history.record();
    let step = |c: usize, r: usize, p: DVec3| p + DVec3::new(c as f64 * 30.0, r as f64 * 30.0, 0.0);
    history.document.array_faces(&box_faces, 3, 2, &step);
    assert_eq!(face_list(&history.document).len(), faces_before + 5 * 6);
    history.undo();
    assert_eq!(face_list(&history.document).len(), faces_before, "one undo removes every copy of the grid");
}

#[test]
fn arrange_for_print_floors_and_separates_two_overlapping_boxes() {
    let mut doc = Doc::new();
    make_box(&mut doc, DVec2::new(0.0, 0.0), 2.0, 5.0, 2.0);
    make_box(&mut doc, DVec2::new(0.0, 0.0), 2.0, 0.0, -3.0);
    arrange_for_print(&mut doc);
    let solids = doc.solid_boundary_face_ids();
    let components = doc.mesh.connected_components(&solids);
    assert_eq!(components.len(), 2);
    let boxes: Vec<(DVec3, DVec3)> = components.iter().map(|c| bounding_box(&doc.mesh, c)).collect();
    for (min, _) in &boxes {
        assert!(min.z.abs() < 1e-9, "part must be floor-aligned, got {}", min.z);
    }
    assert!(!xy_overlaps(boxes[0], boxes[1]));
}

#[test]
fn arrange_for_print_has_no_pairwise_overlap_across_varied_part_sizes() {
    let mut doc = Doc::new();
    make_box(&mut doc, DVec2::new(0.0, 0.0), 1.0, 0.0, 1.0);
    make_box(&mut doc, DVec2::new(0.0, 0.0), 8.0, 0.0, 1.0);
    make_box(&mut doc, DVec2::new(0.0, 0.0), 3.0, 0.0, 1.0);
    make_box(&mut doc, DVec2::new(0.0, 0.0), 1.5, 0.0, 1.0);
    arrange_for_print(&mut doc);
    let solids = doc.solid_boundary_face_ids();
    let components = doc.mesh.connected_components(&solids);
    assert_eq!(components.len(), 4);
    let boxes: Vec<(DVec3, DVec3)> = components.iter().map(|c| bounding_box(&doc.mesh, c)).collect();
    for i in 0..boxes.len() {
        for j in (i + 1)..boxes.len() {
            assert!(!xy_overlaps(boxes[i], boxes[j]), "parts {i} and {j} overlap");
        }
    }
}

#[test]
fn arrange_for_print_is_a_noop_with_no_printable_solids() {
    let mut doc = Doc::new();
    let plane = Plane::from_normal(DVec3::new(0.0, 0.0, 5.0), DVec3::Z);
    draw_rectangle(&mut doc, &plane, DVec2::ZERO, DVec2::new(1.0, 1.0), None);
    let before = live_vertices(&doc);
    arrange_for_print(&mut doc);
    assert_eq!(live_vertices(&doc), before);
}

#[test]
fn drop_to_plate_floors_a_single_object_above_the_plate() {
    let mut doc = Doc::new();
    let faces = make_box(&mut doc, DVec2::new(0.0, 0.0), 2.0, 5.0, 2.0);
    drop_to_plate(&mut doc, &faces);
    let (min, _) = bounding_box(&doc.mesh, &faces);
    assert!(min.z.abs() < 1e-9);
}

#[test]
fn drop_to_plate_floors_a_single_object_below_the_plate() {
    let mut doc = Doc::new();
    let faces = make_box(&mut doc, DVec2::new(0.0, 0.0), 2.0, 0.0, -3.0);
    drop_to_plate(&mut doc, &faces);
    let (min, _) = bounding_box(&doc.mesh, &faces);
    assert!(min.z.abs() < 1e-9);
}

#[test]
fn drop_to_plate_moves_each_disconnected_selected_object_independently() {
    let mut doc = Doc::new();
    let box_a = make_box(&mut doc, DVec2::new(0.0, 0.0), 2.0, 5.0, 2.0);
    let box_b = make_box(&mut doc, DVec2::new(10.0, 10.0), 2.0, -4.0, 1.0);
    let (a_before, _) = bounding_box(&doc.mesh, &box_a);
    let (b_before, _) = bounding_box(&doc.mesh, &box_b);
    let mut selection = box_a.clone();
    selection.extend(box_b.clone());
    drop_to_plate(&mut doc, &selection);
    let (a_after, _) = bounding_box(&doc.mesh, &box_a);
    let (b_after, _) = bounding_box(&doc.mesh, &box_b);
    assert!(a_after.z.abs() < 1e-9 && b_after.z.abs() < 1e-9);
    assert!((a_after.x - a_before.x).abs() < 1e-9 && (a_after.y - a_before.y).abs() < 1e-9);
    assert!((b_after.x - b_before.x).abs() < 1e-9 && (b_after.y - b_before.y).abs() < 1e-9);
}

#[test]
fn drop_to_plate_moves_a_partial_face_subset_via_shared_vertices() {
    let mut doc = Doc::new();
    let faces = make_box(&mut doc, DVec2::new(0.0, 0.0), 2.0, 5.0, 2.0);
    let subset = &faces[..faces.len() - 1];
    drop_to_plate(&mut doc, subset);
    let (min, _) = bounding_box(&doc.mesh, &faces);
    assert!(min.z.abs() < 1e-9);
}

#[test]
fn push_pull_ring_makes_a_hollow_manifold_tube() {
    let mut doc = Doc::new();
    draw_circle(&mut doc, &ground(), DVec2::ZERO, 5.0, 16, None);
    draw_circle(&mut doc, &ground(), DVec2::ZERO, 2.0, 16, None);
    let inner = face_list(&doc).into_iter().find(|&f| holes_of(&doc, f).is_empty()).unwrap();
    doc.erase_face(inner);
    let ring = face_list(&doc)[0];
    let new_faces = push_pull(&mut doc, ring, 3.0);
    assert_eq!(new_faces.len(), 2 + 16 + 16);
    assert!(manifold(&doc, &new_faces));
}

// ---- face detection over planar edge graphs ----

#[test]
fn single_triangle_is_one_face_no_holes() {
    let points = vec![DVec2::new(0.0, 0.0), DVec2::new(1.0, 0.0), DVec2::new(0.0, 1.0)];
    let faces = detect_faces(&points, &loop_index_edges(&[0, 1, 2]));
    assert_eq!(faces.len(), 1);
    assert_eq!(faces[0].holes.len(), 0);
}

#[test]
fn diagonal_splits_rectangle_into_two_faces() {
    let points = vec![DVec2::new(0.0, 0.0), DVec2::new(1.0, 0.0), DVec2::new(1.0, 1.0), DVec2::new(0.0, 1.0)];
    let mut edges = loop_index_edges(&[0, 1, 2, 3]);
    edges.push((0, 2));
    let faces = detect_faces(&points, &edges);
    assert_eq!(faces.len(), 2);
    assert!(faces.iter().all(|f| f.holes.is_empty()));
}

#[test]
fn hole_loop_is_wound_opposite_the_outer_loop() {
    let points = vec![
        DVec2::new(-2.0, -2.0),
        DVec2::new(2.0, -2.0),
        DVec2::new(2.0, 2.0),
        DVec2::new(-2.0, 2.0),
        DVec2::new(-1.0, -1.0),
        DVec2::new(1.0, -1.0),
        DVec2::new(1.0, 1.0),
        DVec2::new(-1.0, 1.0),
    ];
    let mut edges = loop_index_edges(&[0, 1, 2, 3]);
    edges.extend(loop_index_edges(&[4, 5, 6, 7]));
    let faces = detect_faces(&points, &edges);
    let outer_face = faces.iter().find(|f| f.outer.contains(&0)).unwrap();
    assert!(polygon_area(&points, &outer_face.outer) > 0.0, "outer loop must be counter-clockwise");
    assert!(polygon_area(&points, &outer_face.holes[0]) < 0.0, "hole loop must be clockwise");
}

#[test]
fn a_rectangle_sharing_a_corner_with_a_larger_one_splits_it_without_a_tie() {
    let points = vec![
        DVec2::new(0.0, 0.0),
        DVec2::new(10.0, 0.0),
        DVec2::new(10.0, 10.0),
        DVec2::new(0.0, 10.0),
        DVec2::new(5.0, 0.0),
        DVec2::new(5.0, 5.0),
        DVec2::new(0.0, 5.0),
    ];
    let mut edges = loop_index_edges(&[0, 1, 2, 3]);
    edges.extend(loop_index_edges(&[0, 4, 5, 6]));
    let faces = detect_faces(&points, &edges);
    assert_eq!(faces.len(), 2);
    assert!(faces.iter().all(|f| f.holes.is_empty()));
    let inner = faces.iter().find(|f| f.outer.contains(&4) && f.outer.contains(&5)).unwrap();
    assert!((polygon_area(&points, &inner.outer).abs() - 25.0).abs() < 1e-9);
    let outer = faces.iter().find(|f| f.outer.contains(&2)).unwrap();
    assert!((polygon_area(&points, &outer.outer).abs() - 75.0).abs() < 1e-9);
}

#[test]
fn a_point_partway_along_an_edge_splits_it_even_with_no_shared_vertex() {
    let points = vec![
        DVec2::new(0.0, 0.0),
        DVec2::new(10.0, 0.0),
        DVec2::new(10.0, 5.0),
        DVec2::new(0.0, 5.0),
        DVec2::new(3.0, 0.0),
        DVec2::new(7.0, 0.0),
        DVec2::new(7.0, 2.0),
        DVec2::new(3.0, 2.0),
    ];
    let mut edges = loop_index_edges(&[0, 1, 2, 3]);
    edges.extend(loop_index_edges(&[4, 5, 6, 7]));
    let faces = detect_faces(&points, &edges);
    assert_eq!(faces.len(), 2);
    assert!(faces.iter().all(|f| f.holes.is_empty()));
    let notch = faces.iter().find(|f| f.outer.len() == 4).unwrap();
    assert!((polygon_area(&points, &notch.outer).abs() - 8.0).abs() < 1e-9);
    let outer = faces.iter().find(|f| f.outer.len() == 8).unwrap();
    assert!((polygon_area(&points, &outer.outer).abs() - 42.0).abs() < 1e-9);
}

#[test]
fn connected_components_splits_faces_with_no_shared_vertices() {
    let mut mesh: Mesh<DVec3> = Mesh::new();
    let a = mesh.add_vertex(DVec3::new(0.0, 0.0, 0.0));
    let b = mesh.add_vertex(DVec3::new(1.0, 0.0, 0.0));
    let c = mesh.add_vertex(DVec3::new(1.0, 1.0, 0.0));
    let face_1 = mesh.add_face(vec![a, b, c], vec![]);
    let d = mesh.add_vertex(DVec3::new(10.0, 10.0, 0.0));
    let e = mesh.add_vertex(DVec3::new(11.0, 10.0, 0.0));
    let f = mesh.add_vertex(DVec3::new(11.0, 11.0, 0.0));
    let face_2 = mesh.add_face(vec![d, e, f], vec![]);
    let components = mesh.connected_components(&[face_1, face_2]);
    assert_eq!(components.len(), 2);
    for component in &components {
        assert_eq!(component.len(), 1);
    }
}

#[test]
fn connected_components_merges_faces_sharing_a_vertex() {
    let mut mesh: Mesh<DVec3> = Mesh::new();
    let a = mesh.add_vertex(DVec3::new(0.0, 0.0, 0.0));
    let b = mesh.add_vertex(DVec3::new(1.0, 0.0, 0.0));
    let c = mesh.add_vertex(DVec3::new(1.0, 1.0, 0.0));
    let face_1 = mesh.add_face(vec![a, b, c], vec![]);
    let d = mesh.add_vertex(DVec3::new(2.0, 2.0, 0.0));
    let e = mesh.add_vertex(DVec3::new(3.0, 2.0, 0.0));
    let face_2 = mesh.add_face(vec![c, d, e], vec![]);
    let components = mesh.connected_components(&[face_1, face_2]);
    assert_eq!(components.len(), 1);
    assert_eq!(components[0].len(), 2);
}

#[test]
fn extruding_a_ring_pairs_every_boundary_edge_with_its_reverse() {
    let mut doc = Doc::new();
    draw_circle(&mut doc, &ground(), DVec2::ZERO, 5.0, 12, None);
    draw_circle(&mut doc, &ground(), DVec2::ZERO, 2.0, 12, None);
    let inner = face_list(&doc).into_iter().find(|&f| holes_of(&doc, f).is_empty()).unwrap();
    doc.erase_face(inner);
    let ring = face_list(&doc)[0];
    let new_faces = push_pull(&mut doc, ring, 3.0);
    let mut edges: Vec<(VertexId, VertexId)> = Vec::new();
    for &f in &new_faces {
        for l in std::iter::once(outer_of(&doc, f)).chain(holes_of(&doc, f)) {
            for i in 0..l.len() {
                edges.push((l[i], l[(i + 1) % l.len()]));
            }
        }
    }
    for &(a, b) in &edges {
        assert_eq!(edges.iter().filter(|&&e| e == (a, b)).count(), 1);
        assert_eq!(edges.iter().filter(|&&e| e == (b, a)).count(), 1);
    }
    assert_eq!(edges.len(), 12 * 4 * 2 + 12 * 2 * 2);
}

fn encode_triangle(tri: [DVec3; 3]) -> [u8; 48] {
    let normal = (tri[1] - tri[0]).cross(tri[2] - tri[0]).normalize_or_zero();
    let values = [normal.x, normal.y, normal.z, tri[0].x, tri[0].y, tri[0].z, tri[1].x, tri[1].y, tri[1].z, tri[2].x, tri[2].y, tri[2].z];
    let mut out = [0u8; 48];
    for (k, value) in values.iter().enumerate() {
        out[4 * k..4 * k + 4].copy_from_slice(&(*value as f32).to_le_bytes());
    }
    out
}

fn export(doc: &Doc) -> Result<Vec<u8>, ExportError> {
    let mesh = &doc.mesh;
    doc.stl_export(&|f: FaceId| triangulate_face(mesh, f), &encode_triangle)
}

#[test]
fn exporting_an_empty_document_is_refused() {
    let doc = Doc::new();
    assert_eq!(export(&doc), Err(ExportError::EmptyDocument));
}

#[test]
fn exporting_only_flat_sketches_is_refused() {
    let mut doc = Doc::new();
    draw_rectangle(&mut doc, &ground(), DVec2::ZERO, DVec2::new(1.0, 1.0), None);
    assert_eq!(export(&doc), Err(ExportError::NothingPrintable));
}

#[test]
fn exporting_a_solid_with_an_erased_wall_is_refused() {
    let mut doc = Doc::new();
    let sketch = draw_rectangle(&mut doc, &ground(), DVec2::ZERO, DVec2::new(1.0, 1.0), None)[0];
    let faces = push_pull(&mut doc, sketch, 1.0);
    doc.erase_face(faces[0]);
    assert_eq!(export(&doc), Err(ExportError::NotWatertight));
}

#[test]
fn exporting_a_box_writes_its_twelve_triangles_and_skips_flat_sketches() {
    let mut doc = Doc::new();
    let sketch = draw_rectangle(&mut doc, &ground(), DVec2::ZERO, DVec2::new(1.0, 1.0), None)[0];
    push_pull(&mut doc, sketch, 1.0);
    draw_circle(&mut doc, &ground(), DVec2::new(10.0, 10.0), 1.0, 8, None);
    let bytes = export(&doc).expect("a closed box exports");
    assert!(bytes[..80].iter().all(|&b| b == 0));
    assert_eq!(u32::from_le_bytes(bytes[80..84].try_into().unwrap()), 12);
    assert_eq!(bytes.len(), 84 + 12 * 50);
}

fn selected_set(doc: &Doc) -> HashSet<FaceId> {
    doc.selected_ids().iter().copied().collect()
}

#[test]
fn array_of_a_box_produces_a_grid_of_independent_manifold_copies() {
    let mut doc = Doc::new();
    let plane = ground();
    let sketch_id = draw_rectangle(&mut doc, &plane, DVec2::ZERO, DVec2::new(1.0, 1.0), None)[0];
    let box_faces = push_pull(&mut doc, sketch_id, 1.0);

    let step = |c: usize, r: usize, p: DVec3| p + DVec3::new(c as f64 * 30.0, r as f64 * 30.0, 0.0);
    let copies = doc.array_faces(&box_faces, 3, 2, &step);

    assert_eq!(copies.len(), 5 * 6, "3 x 2 counts the source, so 5 cells get a 6-faced copy");
    assert_eq!(live_vertices(&doc).len(), 8 * 6, "each copy clones its own 8 distinct vertices, shared across its 6 faces");
    assert_eq!(doc.solid_boundary_face_ids().len(), 6 * 6, "every copy must inherit solid-boundary status");

    let solids = doc.solid_boundary_face_ids();
    let components = doc.mesh.connected_components(&solids);
    assert_eq!(components.len(), 6, "the grid must be 6 separate objects, not one fused blob");
    for component in &components {
        assert!(manifold(&doc, component), "each box in the array must be manifold on its own");
    }

    for &vid in &outer_of(&doc, box_faces[0]) {
        let x = pos(&doc, vid).x;
        assert!((0.0..=1.0).contains(&x), "arraying must not move the source geometry, x={x}");
    }

    let expected: HashSet<FaceId> = box_faces.iter().chain(copies.iter()).copied().collect();
    assert_eq!(selected_set(&doc), expected, "the whole grid, source included, should become the new selection");
}

#[test]
fn array_pitch_is_center_to_center() {
    let mut doc = Doc::new();
    let plane = ground();
    let sketch_id = draw_rectangle(&mut doc, &plane, DVec2::ZERO, DVec2::new(20.0, 20.0), None)[0];
    let box_faces = push_pull(&mut doc, sketch_id, 5.0);

    let step = |c: usize, r: usize, p: DVec3| p + DVec3::new(c as f64 * 30.0, r as f64 * 40.0, 0.0);
    doc.array_faces(&box_faces, 3, 2, &step);

    let all = face_list(&doc);
    let (min, max) = bounding_box(&doc.mesh, &all);
    assert!((min.x - 0.0).abs() < 1e-9 && (min.y - 0.0).abs() < 1e-9, "the grid should start at the source, min={min}");
    assert!((max.x - (2.0 * 30.0 + 20.0)).abs() < 1e-9, "3 columns at pitch 30 should span 80mm, got {}", max.x);
    assert!((max.y - (1.0 * 40.0 + 20.0)).abs() < 1e-9, "2 rows at pitch 40 should span 60mm, got {}", max.y);
}

#[test]
fn array_of_one_by_one_creates_nothing() {
    let mut doc = Doc::new();
    let plane = ground();
    let sketch_id = draw_rectangle(&mut doc, &plane, DVec2::ZERO, DVec2::new(1.0, 1.0), None)[0];
    let box_faces = push_pull(&mut doc, sketch_id, 1.0);
    let before = face_list(&doc).len();
    doc.select(&box_faces);

    let step = |c: usize, r: usize, p: DVec3| p + DVec3::new(c as f64 * 30.0, r as f64 * 30.0, 0.0);
    let copies = doc.array_faces(&box_faces, 1, 1, &step);

    assert!(copies.is_empty(), "a 1 x 1 array is just the source - nothing to copy");
    assert_eq!(face_list(&doc).len(), before, "a no-op array must not touch the mesh");
    assert_eq!(selected_set(&doc), box_faces.iter().copied().collect::<HashSet<FaceId>>(), "a no-op array must leave the selection alone");
}

#[test]
fn mirroring_a_box_leaves_the_original_untouched_and_produces_an_outward_facing_copy() {
    let mut doc = Doc::new();
    let plane = ground();
    let sketch_id = draw_rectangle(&mut doc, &plane, DVec2::new(5.0, 5.0), DVec2::new(6.0, 6.0), None)[0];
    let box_faces = push_pull(&mut doc, sketch_id, 1.0);

    let pivot = DVec3::ZERO;
    let mirrored = doc.mirror_faces(&box_faces, &|p: DVec3| DVec3::new(2.0 * pivot.x - p.x, p.y, p.z));

    assert_eq!(mirrored.len(), 6);
    assert!(manifold(&doc, &mirrored), "mirrored copy must be manifold - winding must survive the reflection");

    for &vid in &outer_of(&doc, box_faces[0]) {
        let x = pos(&doc, vid).x;
        assert!((4.999..=6.001).contains(&x), "mirroring must not move the source geometry, x={x}");
    }

    let copy_points: Vec<DVec3> = mirrored.iter().flat_map(|&f| outer_of(&doc, f).into_iter().map(|v| pos(&doc, v))).collect();
    assert!(copy_points.iter().all(|p| p.x <= -4.999), "mirrored copy should sit entirely on the opposite side of x=0");

    let centroid = copy_points.iter().fold(DVec3::ZERO, |acc, &p| acc + p) / copy_points.len() as f64;
    for &fid in &mirrored {
        let outer = outer_of(&doc, fid);
        let face_centroid = outer.iter().map(|&v| pos(&doc, v)).fold(DVec3::ZERO, |acc, p| acc + p) / outer.len() as f64;
        assert!(normal_of(&doc, fid).dot(face_centroid - centroid) > 0.0, "mirrored face normal should point outward from the copy");
    }
    assert_eq!(selected_set(&doc), mirrored.iter().copied().collect::<HashSet<FaceId>>(), "the mirrored copy becomes the selection");
}

#[test]
fn two_adjacent_inner_regions_become_one_merged_hole_not_two() {
    let points = vec![
        DVec2::new(0.0, 0.0),
        DVec2::new(20.0, 0.0),
        DVec2::new(20.0, 20.0),
        DVec2::new(0.0, 20.0),
        DVec2::new(5.0, 5.0),
        DVec2::new(10.0, 5.0),
        DVec2::new(10.0, 15.0),
        DVec2::new(5.0, 15.0),
        DVec2::new(15.0, 5.0),
        DVec2::new(15.0, 15.0),
    ];
    let mut edges = loop_index_edges(&[0, 1, 2, 3]);
    edges.extend(loop_index_edges(&[4, 5, 6, 7]));
    edges.extend(loop_index_edges(&[5, 8, 9, 6]));

    let faces = detect_faces(&points, &edges);

    assert_eq!(faces.len(), 3, "both inner rectangles plus the square around them");
    let outer_face = faces.iter().find(|f| f.outer.contains(&0)).unwrap();
    assert_eq!(outer_face.holes.len(), 1, "the two adjacent regions must fuse into a single hole loop");
    let hole_area = polygon_area(&points, &outer_face.holes[0]).abs();
    assert!((hole_area - 100.0).abs() < 1e-9, "the merged hole must trace the union of both rectangles (10x10), got {hole_area}");
    assert!(hole_area > 0.0);
    assert_eq!(outer_face.holes[0].len(), 6);
}

#[test]
fn project_file_round_trip_preserves_geometry_and_groups() {
    let mut doc = Doc::new();
    let plane = ground();
    let face_id = draw_rectangle(&mut doc, &plane, DVec2::ZERO, DVec2::new(2.0, 3.0), None)[0];
    let solid_faces = push_pull(&mut doc, face_id, 4.0);
    let group_id = doc.group_faces(&solid_faces, "hull".to_string());

    let project = doc.to_project_file();
    let mut reloaded = Doc::from_project_file(&project, &|p: DVec3| p.is_finite());

    assert_eq!(face_list(&reloaded).len(), face_list(&doc).len());
    assert_eq!(live_vertices(&reloaded).len(), live_vertices(&doc).len());
    assert_eq!(reloaded.group_count(), 1);
    let reloaded_group = reloaded.get_group(GroupId(0)).unwrap();
    assert_eq!(reloaded_group.name, "hull");
    assert_eq!(reloaded_group.face_ids.len(), doc.get_group(group_id).unwrap().face_ids.len());

    let face_count_before = face_list(&reloaded).len();
    draw_rectangle(&mut reloaded, &plane, DVec2::new(10.0, 10.0), DVec2::new(11.0, 11.0), None);
    assert_eq!(face_list(&reloaded).len(), face_count_before + 1, "reloaded solid's faces must be untouched");
}
