use isosurface::{
    marching_tetrahedra, marching_tetrahedra_cube, marching_tetrahedra_triangles, ExtractError,
};
use std::collections::HashMap;

fn sphere_inside(n: usize, r: f64) -> Vec<bool> {
    let mut inside = Vec::with_capacity(n * n * n);
    for i in 0..n {
        for j in 0..n {
            for k in 0..n {
                let c = |t: usize| -1.0 + 2.0 * t as f64 / (n - 1) as f64;
                let (x, y, z) = (c(i), c(j), c(k));
                let u = (x * x + y * y + z * z).sqrt() - r;
                inside.push(u >= 0.0);
            }
        }
    }
    inside
}

#[test]
fn shape_mismatch_is_reported() {
    let inside = vec![false; 7];
    assert_eq!(marching_tetrahedra(&inside, (2, 2, 2)).err(), Some(ExtractError::ShapeMismatch));
    assert_eq!(
        marching_tetrahedra_triangles(&inside, (2, 2, 2)).err(),
        Some(ExtractError::ShapeMismatch)
    );
    let inside = vec![false; 8];
    assert!(marching_tetrahedra(&inside, (2, 2, 2)).is_ok());
    assert!(marching_tetrahedra(&inside, (2, 4, 1)).is_ok());
    assert!(marching_tetrahedra(&[], (0, 5, 3)).is_ok());
}

#[test]
fn uniform_field_gives_empty_mesh() {
    for value in [true, false] {
        let inside = vec![value; 4 * 5 * 6];
        let mesh = marching_tetrahedra(&inside, (4, 5, 6)).unwrap();
        assert!(mesh.verts.is_empty());
        assert!(mesh.faces.is_empty());
        assert!(mesh.normals.is_empty());
    }
}

#[test]
fn flat_grid_has_no_cells() {
    let inside = vec![true, false, true, false, true, false];
    let mesh = marching_tetrahedra(&inside, (1, 2, 3)).unwrap();
    assert!(mesh.verts.is_empty() && mesh.faces.is_empty());
}

#[test]
fn single_corner_inside_cube() {
    // only node (1, 1, 1), index 7, lies inside: each of the six tetrahedra holds it as its
    // last walk node, and the cut near it is one triangle per tetrahedron
    let mut inside = vec![false; 8];
    inside[7] = true;
    let mesh = marching_tetrahedra(&inside, (2, 2, 2)).unwrap();
    assert_eq!(mesh.faces.len(), 6);
    assert_eq!(mesh.verts.len(), 18);
    assert_eq!(mesh.normals.len(), 18);
    for &(o, i) in &mesh.verts {
        assert!(!inside[o] && inside[i]);
        assert_eq!(i, 7);
    }
    assert_eq!(mesh.faces[0], [0, 1, 2]);
    assert_eq!(mesh.faces[5], [15, 16, 17]);
    // first tetrahedron walks x, then y, then z: 0, 4, 6, 7
    assert_eq!(mesh.verts[0..3], [(0, 7), (4, 7), (6, 7)]);
    assert_eq!(mesh.normals[0], [(0, 4), (4, 6), (6, 7)]);
}

#[test]
fn normals_follow_grid_axes() {
    let dim = (5, 4, 3);
    let inside: Vec<bool> = (0..60).map(|n| (n * 7) % 5 < 2).collect();
    let mesh = marching_tetrahedra(&inside, dim).unwrap();
    assert!(!mesh.verts.is_empty());
    let strides = [dim.1 * dim.2, dim.2, 1];
    for n in &mesh.normals {
        for axis in 0..3 {
            assert_eq!(n[axis].1 - n[axis].0, strides[axis]);
        }
    }
    for f in &mesh.faces {
        for &v in f {
            assert!((v as usize) < mesh.verts.len());
        }
    }
}

#[test]
fn sphere_is_watertight() {
    let n = 12;
    let inside = sphere_inside(n, 0.6);
    let mesh = marching_tetrahedra(&inside, (n, n, n)).unwrap();
    assert!(!mesh.faces.is_empty());
    // identify vertices by the grid segment that holds them
    let mut ids: HashMap<(usize, usize), usize> = HashMap::new();
    for v in &mesh.verts {
        let next = ids.len();
        ids.entry(*v).or_insert(next);
    }
    let mut edges: HashMap<(usize, usize), usize> = HashMap::new();
    let mut faces = 0;
    for f in &mesh.faces {
        let a = ids[&mesh.verts[f[0] as usize]];
        let b = ids[&mesh.verts[f[1] as usize]];
        let c = ids[&mesh.verts[f[2] as usize]];
        assert!(a != b && b != c && a != c);
        for (p, q) in [(a, b), (b, c), (c, a)] {
            *edges.entry((p.min(q), p.max(q))).or_insert(0) += 1;
        }
        faces += 1;
    }
    for count in edges.values() {
        assert_eq!(*count, 2);
    }
    let v = ids.len() as i64;
    let e = edges.len() as i64;
    assert_eq!(v - e + faces as i64, 2);
}

#[test]
fn repeated_extraction_is_identical() {
    let n = 9;
    let inside = sphere_inside(n, 0.5);
    let a = marching_tetrahedra(&inside, (n, n, n)).unwrap();
    let b = marching_tetrahedra(&inside, (n, n, n)).unwrap();
    assert_eq!(a.verts, b.verts);
    assert_eq!(a.faces, b.faces);
    assert_eq!(a.normals, b.normals);
}

#[test]
fn triangles_resolve_faces() {
    let n = 6;
    let inside = sphere_inside(n, 0.7);
    let mesh = marching_tetrahedra(&inside, (n, n, n)).unwrap();
    let tris = marching_tetrahedra_triangles(&inside, (n, n, n)).unwrap();
    assert_eq!(tris.len(), mesh.faces.len());
    for (t, f) in tris.iter().zip(&mesh.faces) {
        for c in 0..3 {
            assert_eq!(t[c], mesh.verts[f[c] as usize]);
        }
    }
}

#[test]
fn cube_matches_grid_with_offset() {
    let inside = [true, false, false, true, false, false, true, false];
    let cube = marching_tetrahedra_cube(inside, 10);
    let mesh = marching_tetrahedra(&inside, (2, 2, 2)).unwrap();
    assert!(!cube.faces.is_empty());
    assert_eq!(cube.verts, mesh.verts);
    assert_eq!(cube.normals, mesh.normals);
    for (f, g) in cube.faces.iter().zip(&mesh.faces) {
        assert_eq!(*f, [g[0] + 10, g[1] + 10, g[2] + 10]);
    }
    let none = marching_tetrahedra_cube([true; 8], 3);
    assert!(none.verts.is_empty() && none.faces.is_empty());
}
