use isosurface::{
    crossing_nodes, marching_triangles, marching_triangles_emit_connected_edges, ExtractError,
};

fn disk(n: usize) -> Vec<f64> {
    let mut u = Vec::with_capacity(n * n);
    for i in 0..n {
        for j in 0..n {
            let c = |t: usize| -0.5 + t as f64 / (n - 1) as f64;
            let (x, y) = (c(i), c(j));
            u.push((x * x + y * y).sqrt());
        }
    }
    u
}

fn flags(u: &[f64], level: f64) -> Vec<bool> {
    u.iter().map(|&v| v >= level).collect()
}

fn point(u: &[f64], nj: usize, level: f64, nodes: (usize, usize)) -> [f64; 2] {
    let (s1, s2) = nodes;
    let a = u[s1] - level;
    let b = u[s2] - level;
    let x = a / (a - b);
    let p = [(s1 / nj) as f64, (s1 % nj) as f64];
    let q = [(s2 / nj) as f64, (s2 % nj) as f64];
    [(1.0 - x) * p[0] + x * q[0], (1.0 - x) * p[1] + x * q[1]]
}

#[test]
fn shape_mismatch_is_reported_2d() {
    let inside = vec![true; 5];
    assert_eq!(marching_triangles(&inside, (2, 3)).err(), Some(ExtractError::ShapeMismatch));
    assert_eq!(
        marching_triangles_emit_connected_edges(&inside, (3, 2)).err(),
        Some(ExtractError::ShapeMismatch)
    );
    assert!(marching_triangles(&inside, (5, 1)).is_ok());
}

#[test]
fn uniform_field_gives_empty_isoline() {
    for value in [true, false] {
        let inside = vec![value; 20];
        let iso = marching_triangles(&inside, (4, 5)).unwrap();
        assert!(iso.verts.is_empty());
        assert_eq!(iso.components, vec![0]);
        assert_eq!(iso.len(), 0);
        assert!(marching_triangles_emit_connected_edges(&inside, (4, 5)).unwrap().is_empty());
    }
}

#[test]
fn single_square_edges() {
    // node (1, 1), index 3, is corner 3 of the only square
    let inside = vec![false, false, false, true];
    let links = marching_triangles_emit_connected_edges(&inside, (2, 2)).unwrap();
    assert_eq!(links, vec![((3, 1), (3, 2)), ((3, 3), (3, 5))]);
    assert_eq!(crossing_nodes(2, (3, 1)), (1, 3));
    assert_eq!(crossing_nodes(2, (3, 2)), (0, 3));
    assert_eq!(crossing_nodes(2, (3, 3)), (0, 3));
    assert_eq!(crossing_nodes(2, (3, 5)), (2, 3));
    assert_eq!(crossing_nodes(2, (3, 0)), (0, 1));
    assert_eq!(crossing_nodes(2, (3, 4)), (0, 2));
}

#[test]
fn single_square_isoline_is_open() {
    let inside = vec![false, false, false, true];
    let iso = marching_triangles(&inside, (2, 2)).unwrap();
    assert_eq!(iso.len(), 1);
    assert_eq!(iso.components, vec![0, 3]);
    let c = iso.component(0);
    assert_eq!(c.len(), 3);
    assert_ne!(c[0], c[2]);
    assert_eq!(c[1], (0, 3));
    let ends = [c[0], c[2]];
    assert!(ends.contains(&(1, 3)) && ends.contains(&(2, 3)));
}

#[test]
fn disk_isoline_is_one_closed_loop() {
    let n = 16;
    let u = disk(n);
    let inside = flags(&u, 0.3);
    let iso = marching_triangles(&inside, (n, n)).unwrap();
    assert_eq!(iso.len(), 1);
    let c = iso.component(0);
    assert!(c.len() > 4);
    assert_eq!(c[0], c[c.len() - 1]);
    for &(a, b) in &c {
        assert_ne!(inside[a], inside[b]);
    }
}

#[test]
fn two_disks_give_two_loops() {
    let n = 20;
    let mut inside = Vec::new();
    for i in 0..n {
        for j in 0..n {
            let (x, y) = (i as f64, j as f64);
            let d1 = ((x - 5.0).powi(2) + (y - 5.0).powi(2)).sqrt();
            let d2 = ((x - 14.0).powi(2) + (y - 13.0).powi(2)).sqrt();
            inside.push(d1.min(d2) >= 3.2);
        }
    }
    let iso = marching_triangles(&inside, (n, n)).unwrap();
    assert_eq!(iso.len(), 2);
    for k in 0..2 {
        let c = iso.component(k);
        assert_eq!(c[0], c[c.len() - 1]);
    }
}

#[test]
fn isoline_segments_match_connected_edges() {
    let n = 16;
    let u = disk(n);
    let inside = flags(&u, 0.6);
    let iso = marching_triangles(&inside, (n, n)).unwrap();
    let links = marching_triangles_emit_connected_edges(&inside, (n, n)).unwrap();
    let mut traced = Vec::new();
    for k in 0..iso.len() {
        let c = iso.component(k);
        for w in c.windows(2) {
            traced.push((w[0].min(w[1]), w[0].max(w[1])));
        }
    }
    let mut listed: Vec<_> = links
        .iter()
        .map(|&(a, b)| {
            let (p, q) = (crossing_nodes(n, a), crossing_nodes(n, b));
            (p.min(q), p.max(q))
        })
        .collect();
    traced.sort();
    listed.sort();
    assert_eq!(traced, listed);
    // the level cuts the corners of the square: open curves that end on the boundary
    assert!(iso.len() >= 1);
    for k in 0..iso.len() {
        let c = iso.component(k);
        assert_ne!(c[0], c[c.len() - 1]);
    }
}

#[test]
fn disk_arc_length() {
    let n = 16;
    let level = 0.3;
    let u = disk(n);
    let inside = flags(&u, level);
    let links = marching_triangles_emit_connected_edges(&inside, (n, n)).unwrap();
    let mut length = 0.0;
    for &(a, b) in &links {
        let p = point(&u, n, level, crossing_nodes(n, a));
        let q = point(&u, n, level, crossing_nodes(n, b));
        length += (p[0] - q[0]).hypot(p[1] - q[1]);
    }
    let expected = 2.0 * std::f64::consts::PI * level;
    let measured = length / (n - 1) as f64;
    assert!((measured - expected).abs() < 0.03, "{} vs {}", measured, expected);
    assert!(measured < expected);
}

#[test]
fn repeated_tracing_is_identical() {
    let n = 13;
    let inside = flags(&disk(n), 0.25);
    let a = marching_triangles(&inside, (n, n)).unwrap();
    let b = marching_triangles(&inside, (n, n)).unwrap();
    assert_eq!(a.verts, b.verts);
    assert_eq!(a.components, b.components);
}
