use isosurface::{square_crossings, square_table, tetrahedron, Interpolate};

fn flags(mask: usize) -> [bool; 4] {
    [mask & 1 != 0, mask & 2 != 0, mask & 4 != 0, mask & 8 != 0]
}

#[test]
fn tetrahedron_two_inside_gives_quad() {
    let cut = tetrahedron([true, true, false, false]);
    assert_eq!(cut.edges, vec![(2, 0), (2, 1), (3, 0), (3, 1)]);
    assert_eq!(cut.faces, vec![[0, 1, 2], [2, 1, 3]]);
}

#[test]
fn tetrahedron_one_outside_gives_triangle() {
    let cut = tetrahedron([true, true, true, false]);
    assert_eq!(cut.edges, vec![(3, 0), (3, 1), (3, 2)]);
    assert_eq!(cut.faces, vec![[0, 1, 2]]);
}

#[test]
fn tetrahedron_one_inside_gives_triangle() {
    let cut = tetrahedron([false, true, false, false]);
    assert_eq!(cut.edges, vec![(0, 1), (2, 1), (3, 1)]);
    assert_eq!(cut.faces, vec![[0, 1, 2]]);
}

#[test]
fn tetrahedron_uniform_gives_nothing() {
    for inside in [[true; 4], [false; 4]] {
        let cut = tetrahedron(inside);
        assert!(cut.edges.is_empty());
        assert!(cut.faces.is_empty());
    }
}

#[test]
fn tetrahedron_every_mask_is_handled() {
    for mask in 0..16usize {
        let inside = flags(mask);
        let n = inside.iter().filter(|&&b| b).count();
        let cut = tetrahedron(inside);
        assert_eq!(cut.edges.len(), n * (4 - n));
        for &(o, i) in &cut.edges {
            assert!(!inside[o] && inside[i]);
        }
        for w in cut.edges.windows(2) {
            assert!(w[0] < w[1]);
        }
        let expected_faces = match cut.edges.len() {
            3 => 1,
            4 => 2,
            _ => 0,
        };
        assert_eq!(cut.faces.len(), expected_faces);
        for f in &cut.faces {
            for &v in f {
                assert!((v as usize) < cut.edges.len());
            }
        }
    }
}

#[test]
fn square_with_one_corner_inside() {
    // corner 0 is shared by both triangles and by the diagonal
    assert_eq!(square_crossings(1), vec![0, 2, 3, 4]);
    // corner 3 too
    assert_eq!(square_crossings(8), vec![1, 2, 3, 5]);
    // corner 1 belongs to the second triangle only
    assert_eq!(square_crossings(2), vec![4, 5]);
    // corner 2 belongs to the first triangle only
    assert_eq!(square_crossings(4), vec![0, 1]);
}

#[test]
fn square_table_every_mask_is_handled() {
    let table = square_table();
    assert_eq!(table.len(), 16);
    assert!(table[0].is_empty());
    assert!(table[15].is_empty());
    for (mask, sides) in table.iter().enumerate() {
        assert_eq!(*sides, square_crossings(mask));
        assert!(sides.len() == 0 || sides.len() == 2 || sides.len() == 4);
        if sides.len() >= 2 {
            assert_eq!(sides[0] < 3, sides[1] < 3);
        }
        if sides.len() == 4 {
            assert!(sides[0] < 3 && sides[2] >= 3 && sides[3] >= 3);
        }
    }
}

#[test]
fn empty_payload_interpolates_to_itself() {
    let a = ((), ());
    let b = a.interpolate(&((), ()), 1u8, 2u8);
    assert_eq!(b, ((), ()));
}

#[derive(Clone, Copy, Debug, PartialEq)]
struct Scalar(f64);

impl Interpolate<f64> for Scalar {
    fn interpolated(&self, other: &Self, a: f64, b: f64) -> Self {
        let x = a / (a - b);
        Scalar((1.0 - x) * self.0 + x * other.0)
    }

    fn interpolate(&self, other: &Self, a: f64, b: f64) -> Self {
        self.interpolated(other, a, b)
    }
}

#[test]
fn pair_interpolates_componentwise() {
    let v = (Scalar(0.0), (Scalar(0.0), ()));
    let w = (Scalar(10.0), (Scalar(10.0), ()));
    let mid = v.interpolate(&w, 1.0, -1.0);
    assert_eq!(mid, (Scalar(5.0), (Scalar(5.0), ())));
    let r = v.interpolate(&w, 3.0, -1.0);
    assert_eq!(r, (Scalar(7.5), (Scalar(7.5), ())));
}
