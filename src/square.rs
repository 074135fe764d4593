use vstd::prelude::*;

verus! {

/// The corners of a grid square, numbered 0 to 3, and the six sides of its two triangles.
///
/// The square whose highest node is `(i, j)` has corner 0 at node `(i - 1, j - 1)`, corner 1 at
/// `(i, j - 1)`, corner 2 at `(i - 1, j)` and corner 3 at `(i, j)`. Its diagonal from corner 0
/// to corner 3 splits it into the triangle of corners 0, 2, 3 (sides 0, 1, 2) and the triangle
/// of corners 0, 1, 3 (sides 3, 4, 5); sides 2 and 3 are both the diagonal.
pub open spec fn side_corners(side: int) -> (int, int) {
    if side == 0 {
        (0, 2)
    } else if side == 1 {
        (2, 3)
    } else if side == 2 {
        (0, 3)
    } else if side == 3 {
        (0, 3)
    } else if side == 4 {
        (0, 1)
    } else {
        (1, 3)
    }
}

/// Bit `corner` of `mask`: whether that corner lies inside.
pub open spec fn corner_bit(mask: int, corner: int) -> bool {
    let d = if corner == 0 {
        1int
    } else if corner == 1 {
        2int
    } else if corner == 2 {
        4int
    } else {
        8int
    };
    (mask / d) % 2 == 1
}

/// The level set crosses `side` of a square whose corners lie inside as `mask` tells.
pub open spec fn is_crossed(mask: int, side: int) -> bool {
    corner_bit(mask, side_corners(side).0) != corner_bit(mask, side_corners(side).1)
}

/// The sides that the level set crosses, in increasing order.
pub open spec fn crossed_sides(mask: int) -> Seq<usize> {
    Seq::new(6, |e: int| e as usize).filter(|e: usize| is_crossed(mask, e as int))
}

fn corner_bit_exec(mask: usize, corner: usize) -> (r: bool)
    requires
        corner < 4,
    ensures
        r == corner_bit(mask as int, corner as int),
{
    let d: usize = if corner == 0 {
        1
    } else if corner == 1 {
        2
    } else if corner == 2 {
        4
    } else {
        8
    };
    (mask / d) % 2 == 1
}

pub(crate) fn side_corners_exec(side: usize) -> (r: (usize, usize))
    requires
        side < 6,
    ensures
        r.0 == side_corners(side as int).0,
        r.1 == side_corners(side as int).1,
{
    if side == 0 {
        (0, 2)
    } else if side == 1 {
        (2, 3)
    } else if side == 2 {
        (0, 3)
    } else if side == 3 {
        (0, 3)
    } else if side == 4 {
        (0, 1)
    } else {
        (1, 3)
    }
}

/// Classifies a square: the sides that the level set crosses, found by trying each side
/// against `mask`, whose bit `v` tells whether corner `v` lies inside.
pub fn square_crossings(mask: usize) -> (r: Vec<usize>)
    ensures
        r@ == crossed_sides(mask as int),
{
    let mut sides: Vec<usize> = Vec::new();
    let mut e: usize = 0;
    while e < 6
        invariant
            e <= 6,
            sides@ == Seq::new(6, |e: int| e as usize).take(e as int).filter(
                |e: usize| is_crossed(mask as int, e as int),
            ),
        decreases 6 - e,
    {
        proof {
            reveal(Seq::filter);
            assert(Seq::new(6, |e: int| e as usize).take(e + 1).drop_last() =~= Seq::new(
                6,
                |e: int| e as usize,
            ).take(e as int));
        }
        let (a, b) = side_corners_exec(e);
        if corner_bit_exec(mask, a) != corner_bit_exec(mask, b) {
            sides.push(e);
        }
        e = e + 1;
    }
    proof {
        assert(Seq::new(6, |e: int| e as usize).take(6) =~= Seq::new(6, |e: int| e as usize));
    }
    sides
}

/// The table of [`square_crossings`] for the 16 masks.
pub fn square_table() -> (t: Vec<Vec<usize>>)
    ensures
        t@.len() == 16,
        forall|m: int| 0 <= m < 16 ==> (#[trigger] t@[m])@ == crossed_sides(m),
{
    let mut t: Vec<Vec<usize>> = Vec::new();
    let mut m: usize = 0;
    while m < 16
        invariant
            m <= 16,
            t@.len() == m,
            forall|x: int| 0 <= x < m ==> (#[trigger] t@[x])@ == crossed_sides(x),
        decreases 16 - m,
    {
        t.push(square_crossings(m));
        m = m + 1;
    }
    t
}

/// Every mask is handled: a square is crossed along no side, along two sides of one of its
/// triangles, or along two sides of each triangle, listed triangle by triangle.
pub proof fn lemma_square_cases(mask: int)
    requires
        0 <= mask < 16,
    ensures
        ({
            let c = crossed_sides(mask);
            &&& c.len() == 0 || c.len() == 2 || c.len() == 4
            &&& c.len() >= 2 ==> (c[0] < 3) == (c[1] < 3) && c[0] < c[1]
            &&& c.len() == 4 ==> c[0] < 3 && 3 <= c[2] < c[3]
            &&& forall|x: int| 0 <= x < c.len() ==> c[x] < 6
        }),
{
    let pred = |e: usize| is_crossed(mask, e as int);
    let a = seq![0usize, 1usize, 2usize];
    let b = seq![3usize, 4usize, 5usize];
    assert(Seq::new(6, |e: int| e as usize) =~= a + b);
    Seq::filter_distributes_over_add(a, b, pred);
    let b0 = corner_bit(mask, 0);
    let b1 = corner_bit(mask, 1);
    let b2 = corner_bit(mask, 2);
    let b3 = corner_bit(mask, 3);
    assert(is_crossed(mask, 0) == (b0 != b2));
    assert(is_crossed(mask, 1) == (b2 != b3));
    assert(is_crossed(mask, 2) == (b0 != b3));
    assert(is_crossed(mask, 3) == (b0 != b3));
    assert(is_crossed(mask, 4) == (b0 != b1));
    assert(is_crossed(mask, 5) == (b1 != b3));
    lemma_triangle_filter(a, pred);
    lemma_triangle_filter(b, pred);
}

/// Filtering a three-element sequence, spelled out.
proof fn lemma_triangle_filter(t: Seq<usize>, pred: spec_fn(usize) -> bool)
    requires
        t.len() == 3,
    ensures
        t.filter(pred) == (if pred(t[0]) {
            seq![t[0]]
        } else {
            seq![]
        }) + (if pred(t[1]) {
            seq![t[1]]
        } else {
            seq![]
        }) + (if pred(t[2]) {
            seq![t[2]]
        } else {
            seq![]
        }),
{
    reveal_with_fuel(Seq::filter, 4);
    assert(t.drop_last() =~= seq![t[0], t[1]]);
    assert(t.drop_last().drop_last() =~= seq![t[0]]);
    assert(t.drop_last().drop_last().drop_last() =~= Seq::<usize>::empty());
    assert(t.filter(pred) =~= (if pred(t[0]) {
        seq![t[0]]
    } else {
        seq![]
    }) + (if pred(t[1]) {
        seq![t[1]]
    } else {
        seq![]
    }) + (if pred(t[2]) {
        seq![t[2]]
    } else {
        seq![]
    }));
}

} // verus!
