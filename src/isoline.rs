use vstd::prelude::*;
use crate::grid::{ExtractError, shape_matches2};
use crate::square::{crossed_sides, is_crossed, lemma_square_cases, side_corners, square_table};
use crate::trace::{
    add_square_to_map, adj_built, adj_sym, lemma_add_square, lemma_built_all, lemma_finish,
    lemma_inv_len, lemma_live_bound, lemma_live_none, lemma_next_row, live_count, next_live,
    starts_closed, trace_component, trace_inv, ends_closed, whole_upto, lemma_fresh_ends,
    lemma_whole_done,
};

verus! {

/// The offset, in linear node indices, from a square's highest node back to its corner `v`,
/// in a row-major grid with `nj` nodes per row.
pub open spec fn corner_offset(nj: int, v: int) -> int {
    if v == 0 {
        nj + 1
    } else if v == 1 {
        1
    } else if v == 2 {
        nj
    } else {
        0
    }
}

/// The two nodes, lower index first, at the ends of side `e` of the square whose highest node
/// has index `s`.
pub open spec fn side_nodes(nj: int, s: int, e: int) -> (usize, usize) {
    (
        (s - corner_offset(nj, side_corners(e).0)) as usize,
        (s - corner_offset(nj, side_corners(e).1)) as usize,
    )
}

/// The same grid segment seen from the other simplex that has it as a side: the diagonal
/// from the square's other triangle, an outer side from the neighbouring square.
pub open spec fn dual_side(nj: int, s: int, e: int) -> (int, int) {
    if e == 0 {
        (s - nj, 5)
    } else if e == 1 {
        (s + 1, 4)
    } else if e == 2 {
        (s, 3)
    } else if e == 3 {
        (s, 2)
    } else if e == 4 {
        (s - 1, 1)
    } else {
        (s + nj, 0)
    }
}

/// The 4-bit mask of the square whose highest node has index `s`: bit `v` tells whether its
/// corner `v` lies inside.
pub open spec fn square_mask(inside: Seq<bool>, nj: int, s: int) -> int {
    (if inside[s] {
        8int
    } else {
        0int
    }) + (if inside[s - nj] {
        4int
    } else {
        0int
    }) + (if inside[s - 1] {
        2int
    } else {
        0int
    }) + (if inside[s - nj - 1] {
        1int
    } else {
        0int
    })
}

/// The level-set segments inside the square whose highest node has index `s`, one per crossed
/// triangle, each joining two crossed sides, written as (square, side) keys.
pub open spec fn square_links(inside: Seq<bool>, nj: int, s: int) -> Seq<((usize, usize), (usize, usize))> {
    let c = crossed_sides(square_mask(inside, nj, s));
    if c.len() >= 2 {
        seq![((s as usize, c[0]), (s as usize, c[1]))] + if c.len() >= 4 {
            seq![((s as usize, c[2]), (s as usize, c[3]))]
        } else {
            seq![]
        }
    } else {
        seq![]
    }
}

/// The segments of the squares `(i, 1..j)`, in order.
pub open spec fn row_links(inside: Seq<bool>, dim: (usize, usize), i: int, j: int) -> Seq<((usize, usize), (usize, usize))>
    decreases j,
{
    if j <= 1 {
        seq![]
    } else {
        row_links(inside, dim, i, j - 1) + square_links(inside, dim.1 as int, i * dim.1 + j - 1)
    }
}

/// The segments of the squares `(1..i, _)`, in row-major order.
pub open spec fn grid_links(inside: Seq<bool>, dim: (usize, usize), i: int) -> Seq<((usize, usize), (usize, usize))>
    decreases i,
{
    if i <= 1 {
        seq![]
    } else {
        grid_links(inside, dim, i - 1) + row_links(inside, dim, i - 1, dim.1 as int)
    }
}

/// All level-set segments of a 2D grid field, square by square in row-major order.
pub open spec fn connected_edges(inside: Seq<bool>, dim: (usize, usize)) -> Seq<((usize, usize), (usize, usize))> {
    grid_links(inside, dim, dim.0 as int)
}

/// The grid segment that a (square, side) key stands for: the nodes at its ends, lower index
/// first. A crossing's position on it is the interpolation of the two node coordinates by their
/// samples.
pub fn crossing_nodes(nj: usize, key: (usize, usize)) -> (r: (usize, usize))
    requires
        key.1 < 6,
        key.0 >= nj + 1,
    ensures
        r == side_nodes(nj as int, key.0 as int, key.1 as int),
{
    let (s, e) = key;
    let (a, b) = crate::square::side_corners_exec(e);
    (s - corner_offset_exec(nj, a), s - corner_offset_exec(nj, b))
}

fn corner_offset_exec(nj: usize, v: usize) -> (r: usize)
    requires
        nj < usize::MAX,
    ensures
        r == corner_offset(nj as int, v as int),
{
    if v == 0 {
        nj + 1
    } else if v == 1 {
        1
    } else if v == 2 {
        nj
    } else {
        0
    }
}

/// A segment and its dual have the same ends.
pub proof fn lemma_dual_nodes(nj: int, s: int, e: int)
    requires
        0 <= e < 6,
    ensures
        side_nodes(nj, dual_side(nj, s, e).0, dual_side(nj, s, e).1) == side_nodes(nj, s, e),
{
}

/// Appends the segments of square `s` to `links`.
fn push_square_links(
    links: &mut Vec<((usize, usize), (usize, usize))>,
    table: &Vec<Vec<usize>>,
    inside: &[bool],
    nj: usize,
    s: usize,
)
    requires
        s < inside@.len(),
        s >= nj + 1,
        table@.len() == 16,
        forall|m: int| 0 <= m < 16 ==> (#[trigger] table@[m])@ == crossed_sides(m),
    ensures
        final(links)@ == old(links)@ + square_links(inside@, nj as int, s as int),
{
    let mask: usize = (if inside[s] { 8 } else { 0 }) + (if inside[s - nj] { 4 } else { 0 })
        + (if inside[s - 1] { 2 } else { 0 }) + (if inside[s - nj - 1] { 1 } else { 0 });
    assert(mask == square_mask(inside@, nj as int, s as int));
    let c = &table[mask];
    proof {
        lemma_square_cases(mask as int);
    }
    let ghost before = links@;
    if c.len() >= 2 {
        links.push(((s, c[0]), (s, c[1])));
        if c.len() >= 4 {
            links.push(((s, c[2]), (s, c[3])));
        }
    }
    proof {
        assert(links@ =~= before + square_links(inside@, nj as int, s as int));
    }
}

/// Lists the level-set segments of a 2D grid field: for each square in row-major order, the
/// pairs of crossed triangle sides that a segment joins, as (square, side) keys.
///
/// `inside[n]` tells whether the sample at node `n` is at or above the level; node `(i, j)` has
/// index `i * nj + j` for `dim = (ni, nj)`, and the square `(i, j)`, for `1 <= i < ni` and
/// `1 <= j < nj`, has index `i * nj + j`. Fails with `ShapeMismatch` exactly when `inside` does
/// not hold one flag per node.
pub fn marching_triangles_emit_connected_edges(inside: &[bool], dim: (usize, usize)) -> (r: Result<
    Vec<((usize, usize), (usize, usize))>,
    ExtractError,
>)
    ensures
        r is Err <==> inside@.len() != dim.0 * dim.1,
        r matches Ok(l) ==> l@ == connected_edges(inside@, dim),
{
    let (ni, nj) = dim;
    if !shape_matches2(inside.len(), dim) {
        return Err(ExtractError::ShapeMismatch);
    }
    let len = inside.len();
    let table = square_table();
    let mut links: Vec<((usize, usize), (usize, usize))> = Vec::new();
    if ni == 0 {
        return Ok(links);
    }
    let mut i: usize = 1;
    let mut row: usize = nj;
    while i < ni
        invariant
            1 <= i <= ni,
            len == inside@.len(),
            len == ni * nj,
            row == i * nj,
            table@.len() == 16,
            forall|m: int| 0 <= m < 16 ==> (#[trigger] table@[m])@ == crossed_sides(m),
            links@ == grid_links(inside@, dim, i as int),
            dim == (ni, nj),
        decreases ni - i,
    {
        proof {
            assert(row + nj <= len && row >= nj) by (nonlinear_arith)
                requires
                    row == i * nj,
                    1 <= i,
                    i + 1 <= ni,
                    len == ni * nj,
            ;
        }
        let mut j: usize = 1;
        while j < nj
            invariant
                1 <= i < ni,
                1 <= j,
                j <= nj || j == 1,
                len == inside@.len(),
                row == i * nj,
                row + nj <= len,
                row >= nj,
                table@.len() == 16,
                forall|m: int| 0 <= m < 16 ==> (#[trigger] table@[m])@ == crossed_sides(m),
                links@ == grid_links(inside@, dim, i as int) + row_links(inside@, dim, i as int, j as int),
                dim == (ni, nj),
            decreases nj - j,
        {
            let s = row + j;
            let ghost before = links@;
            push_square_links(&mut links, &table, inside, nj, s);
            proof {
                assert(links@ =~= before + square_links(inside@, nj as int, s as int));
                assert(row_links(inside@, dim, i as int, j + 1) == row_links(inside@, dim, i as int, j as int) + square_links(inside@, nj as int, i * nj + j));
                assert(links@ =~= grid_links(inside@, dim, i as int) + row_links(inside@, dim, i as int, j + 1));
            }
            j = j + 1;
        }
        proof {
            assert(row_links(inside@, dim, i as int, j as int) == row_links(inside@, dim, i as int, nj as int));
            assert(grid_links(inside@, dim, i + 1) == grid_links(inside@, dim, i as int) + row_links(inside@, dim, i as int, nj as int));
            assert(row + nj == (i + 1) * nj) by (nonlinear_arith)
                requires
                    row == i * nj,
            ;
        }
        row = row + nj;
        i = i + 1;
    }
    Ok(links)
}

/// The linear index of the square whose highest node is `(i, j)`.
pub open spec fn square_at(nj: int, i: int, j: int) -> int {
    i * nj + j
}

/// `(i, j)` is a square of the grid: its highest node is `(i, j)`, its lowest `(i - 1, j - 1)`.
pub open spec fn is_square(dim: (usize, usize), i: int, j: int) -> bool {
    1 <= i < dim.0 && 1 <= j < dim.1
}

/// The other crossed side of the triangle of square `s` that the level set enters through side
/// `e`, if it does.
pub open spec fn partner_side(inside: Seq<bool>, nj: int, s: int, e: int) -> Option<usize> {
    let c = crossed_sides(square_mask(inside, nj, s));
    if c.len() >= 2 && c[0] == e {
        Some(c[1])
    } else if c.len() >= 2 && c[1] == e {
        Some(c[0])
    } else if c.len() >= 4 && c[2] == e {
        Some(c[3])
    } else if c.len() >= 4 && c[3] == e {
        Some(c[2])
    } else {
        None
    }
}

/// One level-set segment joins the crossings on grid segments `a` and `b`, in either order.
pub open spec fn joined(inside: Seq<bool>, dim: (usize, usize), a: (usize, usize), b: (usize, usize)) -> bool {
    exists|i: int, j: int, e: int|
        is_square(dim, i, j) && 0 <= e < 6 && (#[trigger] partner_side(
            inside,
            dim.1 as int,
            square_at(dim.1 as int, i, j),
            e,
        )) is Some && a == side_nodes(dim.1 as int, square_at(dim.1 as int, i, j), e) && b
            == side_nodes(
            dim.1 as int,
            square_at(dim.1 as int, i, j),
            partner_side(inside, dim.1 as int, square_at(dim.1 as int, i, j), e)->0 as int,
        )
}

/// Positions `x` and `x + 1` of a vertex buffer of length `n` lie in one component, given the
/// positions `starts` at which components start.
pub open spec fn is_link(starts: Seq<usize>, n: int, x: int) -> bool {
    0 <= x && x + 1 < n && !starts.contains((x + 1) as usize)
}

/// Some component passes from `a` straight to `b` or from `b` straight to `a`.
pub open spec fn has_link(verts: Seq<(usize, usize)>, starts: Seq<usize>, a: (usize, usize), b: (usize, usize)) -> bool {
    exists|x: int|
        #[trigger] is_link(starts, verts.len() as int, x) && ((verts[x] == a && verts[x + 1] == b)
            || (verts[x] == b && verts[x + 1] == a))
}

/// Component offsets: the first is 0, the last is the number of vertices, and every component
/// has at least two vertices.
pub open spec fn components_ok(comps: Seq<usize>, n: int) -> bool {
    &&& comps.len() >= 1
    &&& comps[0] == 0
    &&& comps.last() == n
    &&& forall|c: int| 0 <= c < comps.len() - 1 ==> #[trigger] comps[c] + 2 <= comps[c + 1]
}

/// Every pair of consecutive vertices of a component is joined by a level-set segment.
#[verifier::opaque]
pub open spec fn links_sound(inside: Seq<bool>, dim: (usize, usize), verts: Seq<(usize, usize)>, starts: Seq<usize>) -> bool {
    forall|x: int|
        #[trigger] is_link(starts, verts.len() as int, x) ==> joined(inside, dim, verts[x], verts[x + 1])
}

/// Every level-set segment of the grid joins two consecutive vertices of some component.
pub open spec fn links_complete(inside: Seq<bool>, dim: (usize, usize), verts: Seq<(usize, usize)>, starts: Seq<usize>) -> bool {
    forall|i: int, j: int, e: int|
        is_square(dim, i, j) && 0 <= e < 6 && (#[trigger] partner_side(
            inside,
            dim.1 as int,
            square_at(dim.1 as int, i, j),
            e,
        )) is Some ==> has_link(
            verts,
            starts,
            side_nodes(dim.1 as int, square_at(dim.1 as int, i, j), e),
            side_nodes(
                dim.1 as int,
                square_at(dim.1 as int, i, j),
                partner_side(inside, dim.1 as int, square_at(dim.1 as int, i, j), e)->0 as int,
            ),
        )
}

/// The isoline of a 2D grid field, as connected polylines.
///
/// Vertex `v` is the crossing of the level set with the grid segment between nodes
/// `verts[v].0` and `verts[v].1` (lower index first). Component `c` is the polyline
/// `verts[components[c]..components[c + 1]]`: a closed loop when its first and last vertices
/// are the same, else an open curve whose ends lie on the boundary of the grid.
pub struct Isoline {
    pub verts: Vec<(usize, usize)>,
    pub components: Vec<usize>,
}

impl Isoline {
    /// The number of components.
    pub fn len(&self) -> (r: usize)
        requires
            self.components@.len() >= 1,
        ensures
            r == self.components@.len() - 1,
    {
        self.components.len() - 1
    }

    /// The vertices of component `c`.
    pub fn component(&self, c: usize) -> (r: Vec<(usize, usize)>)
        requires
            c + 1 < self.components@.len(),
            self.components@[c as int] <= self.components@[c + 1],
            self.components@[c + 1] <= self.verts@.len(),
        ensures
            r@ == self.verts@.subrange(self.components@[c as int] as int, self.components@[c + 1] as int),
    {
        // fixes the length of `components` as a usize, so that `c + 1` fits
        let n = self.components.len();
        let a = self.components[c];
        let b = self.components[c + 1];
        let mut r: Vec<(usize, usize)> = Vec::new();
        let mut x: usize = a;
        while x < b
            invariant
                a <= x <= b,
                b <= self.verts@.len(),
                r@ == self.verts@.subrange(a as int, x as int),
            decreases b - x,
        {
            r.push(self.verts[x]);
            proof {
                assert(r@ =~= self.verts@.subrange(a as int, x + 1));
            }
            x = x + 1;
        }
        r
    }
}

/// A partner side is a crossed side of the same triangle, and the relation goes both ways.
pub proof fn lemma_partner_symmetric(inside: Seq<bool>, nj: int, s: int, e: int)
    requires
        0 <= e < 6,
        partner_side(inside, nj, s, e) is Some,
    ensures
        ({
            let f = partner_side(inside, nj, s, e)->0 as int;
            &&& 0 <= f < 6
            &&& f != e
            &&& partner_side(inside, nj, s, f) == Some(e as usize)
        }),
{
    let m = square_mask(inside, nj, s);
    assert(0 <= m < 16);
    lemma_square_cases(m);
}

/// Side `e` of square `(i, j)` lies on the outer edge of the grid: both its nodes have
/// `i == 0`, `i == ni - 1`, `j == 0` or `j == nj - 1`.
pub open spec fn outer_side(dim: (usize, usize), i: int, j: int, e: int) -> bool {
    (e == 0 && i == 1) || (e == 5 && i == dim.0 - 1) || (e == 4 && j == 1) || (e == 1 && j == dim.1
        - 1)
}

/// The grid segment `a` lies on the outer edge of the grid.
pub open spec fn on_boundary(dim: (usize, usize), a: (usize, usize)) -> bool {
    exists|i: int, j: int, e: int|
        is_square(dim, i, j) && 0 <= e < 6 && outer_side(dim, i, j, e) && a == #[trigger] side_nodes(
            dim.1 as int,
            square_at(dim.1 as int, i, j),
            e,
        )
}

/// Every component is whole: it is closed (its first and last vertices are the same), or both
/// its ends lie on the outer edge of the grid.
pub open spec fn components_maximal(dim: (usize, usize), verts: Seq<(usize, usize)>, comps: Seq<usize>) -> bool {
    forall|c: int|
        0 <= c < comps.len() - 1 ==> {
            let a = verts[#[trigger] comps[c] as int];
            let b = verts[comps[c + 1] - 1];
            a == b || (on_boundary(dim, a) && on_boundary(dim, b))
        }
}

/// `verts` and `comps` are an isoline of the field: well-formed components, each pair of
/// consecutive vertices joined by a level-set segment, and every segment of the grid present.
pub open spec fn isoline_of(inside: Seq<bool>, dim: (usize, usize), verts: Seq<(usize, usize)>, comps: Seq<usize>) -> bool {
    &&& components_ok(comps, verts.len() as int)
    &&& links_sound(inside, dim, verts, comps)
    &&& links_complete(inside, dim, verts, comps)
}

/// Traces the isoline at a level of a 2D grid field by marching triangles.
///
/// `inside[n]` tells whether the sample at node `n` is at or above the level, with node
/// `(i, j)` at index `i * nj + j` for `dim = (ni, nj)`. Each square is split into two
/// triangles along the diagonal from its lowest to its highest node; within a triangle the
/// level set is a segment between two crossed sides. The segments are chained through the sides
/// that neighbouring triangles share: each component starts at the first live key, is walked
/// forward, and, when it did not close, reversed and walked on from the other side of its start.
///
/// Every segment of the level set appears once: the components hold as many pairs of
/// consecutive vertices as [`marching_triangles_emit_connected_edges`] lists segments.
///
/// Fails with `ShapeMismatch` exactly when `inside` does not hold one flag per node. The map of
/// segments keeps six entries per node, which bounds the size of the grid.
#[verifier::rlimit(30)]
pub fn marching_triangles(inside: &[bool], dim: (usize, usize)) -> (r: Result<Isoline, ExtractError>)
    requires
        inside@.len() * 6 <= usize::MAX,
    ensures
        r is Err <==> inside@.len() != dim.0 * dim.1,
        r matches Ok(iso) ==> isoline_of(inside@, dim, iso.verts@, iso.components@)
            && components_maximal(dim, iso.verts@, iso.components@)
            && iso.verts@.len() + 1 == iso.components@.len() + connected_edges(inside@, dim).len(),
{
    let (ni, nj) = dim;
    if !shape_matches2(inside.len(), dim) {
        return Err(ExtractError::ShapeMismatch);
    }
    let len = inside.len();
    let n6 = 6 * len;
    let mut adj: Vec<Option<usize>> = Vec::new();
    let mut k: usize = 0;
    while k < n6
        invariant
            k <= n6,
            adj@ == Seq::new(k as nat, |x: int| None::<usize>),
        decreases n6 - k,
    {
        adj.push(None);
        proof {
            assert(adj@ =~= Seq::new((k + 1) as nat, |x: int| None::<usize>));
        }
        k = k + 1;
    }
    proof {
        reveal(adj_built);
        reveal(adj_sym);
        lemma_live_none(adj@);
    }
    let table = square_table();
    let mut i: usize = 1;
    let mut row: usize = nj;
    while i < ni
        invariant
            1 <= i,
            i <= ni || i == 1,
            len == inside@.len(),
            len == ni * nj,
            n6 == 6 * len,
            n6 <= usize::MAX,
            row == i * nj,
            table@.len() == 16,
            forall|m: int| 0 <= m < 16 ==> (#[trigger] table@[m])@ == crossed_sides(m),
            adj_built(inside@, dim, adj@, i as int, 1),
            adj@.len() == n6,
            live_count(adj@) == 2 * grid_links(inside@, dim, i as int).len(),
            dim == (ni, nj),
        decreases ni - i,
    {
        proof {
            assert(row + nj <= len && row >= nj) by (nonlinear_arith)
                requires
                    row == i * nj,
                    1 <= i,
                    i + 1 <= ni,
                    len == ni * nj,
            ;
        }
        let mut j: usize = 1;
        proof {
            assert(grid_links(inside@, dim, i as int) + row_links(inside@, dim, i as int, 1) =~= grid_links(inside@, dim, i as int));
        }
        while j < nj
            invariant
                1 <= i < ni,
                1 <= j,
                j <= nj || j == 1,
                len == inside@.len(),
                n6 == 6 * len,
                n6 <= usize::MAX,
                row == i * nj,
                row + nj <= len,
                row >= nj,
                table@.len() == 16,
                forall|m: int| 0 <= m < 16 ==> (#[trigger] table@[m])@ == crossed_sides(m),
                adj_built(inside@, dim, adj@, i as int, j as int),
                adj@.len() == n6,
                live_count(adj@) == 2 * (grid_links(inside@, dim, i as int) + row_links(
                    inside@,
                    dim,
                    i as int,
                    j as int,
                )).len(),
                dim == (ni, nj),
            decreases nj - j,
        {
            let s = row + j;
            proof {
                reveal(adj_built);
                lemma_add_square(inside@, dim, adj@, i as int, j as int);
            }
            add_square_to_map(&mut adj, &table, inside, nj, s);
            proof {
                assert(row_links(inside@, dim, i as int, j + 1) == row_links(inside@, dim, i as int, j as int) + square_links(inside@, nj as int, i * nj + j));
                assert(grid_links(inside@, dim, i as int) + row_links(inside@, dim, i as int, j + 1) =~= grid_links(inside@, dim, i as int) + row_links(inside@, dim, i as int, j as int) + square_links(inside@, nj as int, s as int));
            }
            j = j + 1;
        }
        proof {
            assert(row_links(inside@, dim, i as int, j as int) == row_links(inside@, dim, i as int, nj as int));
            assert(grid_links(inside@, dim, i + 1) == grid_links(inside@, dim, i as int) + row_links(inside@, dim, i as int, nj as int));
            lemma_next_row(inside@, dim, adj@, i as int, j as int);
            assert(row + nj == (i + 1) * nj) by (nonlinear_arith)
                requires
                    row == i * nj,
            ;
        }
        row = row + nj;
        i = i + 1;
    }
    proof {
        lemma_built_all(inside@, dim, adj@, i as int);
        assert(grid_links(inside@, dim, i as int) == connected_edges(inside@, dim));
    }
    let mut verts: Vec<(usize, usize)> = Vec::new();
    let mut starts: Vec<usize> = Vec::new();
    let mut cursor: usize = 0;
    proof {
        lemma_live_bound(adj@);
        lemma_fresh_ends(inside@, dim, adj@);
    }
    loop
        invariant
            trace_inv(inside@, dim, adj@, verts@, starts@),
            starts_closed(starts@, verts@.len() as int),
            adj@.len() == n6,
            n6 == 6 * len,
            n6 <= usize::MAX,
            len == inside@.len(),
            len == ni * nj,
            dim == (ni, nj),
            cursor <= n6,
            forall|x: int| 0 <= x < cursor ==> (#[trigger] adj@[x]) is None,
            verts@.len() + live_count(adj@) <= n6,
            live_count(adj@) + 2 * (verts@.len() - starts@.len()) == 2 * connected_edges(inside@, dim).len(),
            ends_closed(inside@, dim, adj@),
            whole_upto(dim, verts@, starts@),
        ensures
            whole_upto(dim, verts@, starts@),
            trace_inv(inside@, dim, adj@, verts@, starts@),
            starts_closed(starts@, verts@.len() as int),
            live_count(adj@) + 2 * (verts@.len() - starts@.len()) == 2 * connected_edges(inside@, dim).len(),
            forall|x: int| 0 <= x < adj@.len() ==> (#[trigger] adj@[x]) is None,
        decreases live_count(adj@),
    {
        cursor = next_live(&adj, cursor);
        if cursor == n6 {
            break ;
        }
        trace_component(&mut adj, &mut verts, &mut starts, Ghost(inside@), dim, cursor);
    }
    proof {
        lemma_inv_len(inside@, dim, adj@, verts@, starts@);
    }
    let n = verts.len();
    let ghost open_starts = starts@;
    starts.push(n);
    proof {
        lemma_finish(inside@, dim, adj@, verts@, open_starts);
        lemma_whole_done(dim, verts@, open_starts);
        lemma_live_none(adj@);
    }
    Ok(Isoline { verts, components: starts })
}

/// The corners of square `(i, j)` lie on one side of the level set.
pub open spec fn uniform_square(inside: Seq<bool>, dim: (usize, usize), i: int, j: int) -> bool {
    let m = square_mask(inside, dim.1 as int, square_at(dim.1 as int, i, j));
    m == 0 || m == 15
}

/// A square whose corners lie on one side is crossed nowhere.
proof fn lemma_uniform_square_uncrossed(inside: Seq<bool>, nj: int, s: int, e: int)
    requires
        ({
            let m = square_mask(inside, nj, s);
            m == 0 || m == 15
        }),
    ensures
        partner_side(inside, nj, s, e) is None,
{
    let m = square_mask(inside, nj, s);
    let c = crossed_sides(m);
    lemma_square_cases(m);
    if c.len() > 0 {
        let pred = |x: usize| is_crossed(m, x as int);
        Seq::new(6, |x: int| x as usize).lemma_filter_pred(pred, 0);
    }
}

/// A field in which the corners of every square lie on one side of the level set has an empty
/// isoline: no vertex and no component.
pub proof fn lemma_uniform_field_no_isoline(
    inside: Seq<bool>,
    dim: (usize, usize),
    verts: Seq<(usize, usize)>,
    comps: Seq<usize>,
)
    requires
        isoline_of(inside, dim, verts, comps),
        forall|i: int, j: int| #[trigger] is_square(dim, i, j) ==> uniform_square(inside, dim, i, j),
    ensures
        verts.len() == 0,
        comps.len() == 1,
{
    reveal(links_sound);
    if comps.len() > 1 {
        assert(comps[0] + 2 <= comps[1]);
        assert(!comps.contains(1)) by {
            if comps.contains(1) {
                let c = choose|c: int| 0 <= c < comps.len() && comps[c] == 1;
                if c > 0 {
                    assert(comps[c - 1] + 2 <= comps[c]);
                    assert(comps[0] <= comps[c - 1]) by {
                        lemma_sorted_from_gaps(comps, 0, c - 1);
                    }
                }
            }
        }
        assert(is_link(comps, verts.len() as int, 0)) by {
            lemma_sorted_from_gaps(comps, 1, comps.len() - 1);
        }
        let nj = dim.1 as int;
        let (i, j, e) = choose|i: int, j: int, e: int|
            is_square(dim, i, j) && 0 <= e < 6 && (#[trigger] partner_side(inside, nj, square_at(nj, i, j), e))
                is Some && verts[0] == side_nodes(nj, square_at(nj, i, j), e) && verts[1] == side_nodes(
                nj,
                square_at(nj, i, j),
                partner_side(inside, nj, square_at(nj, i, j), e)->0 as int,
            );
        lemma_uniform_square_uncrossed(inside, nj, square_at(nj, i, j), e);
    }
}

/// Offsets whose consecutive gaps are at least two never decrease.
proof fn lemma_sorted_from_gaps(comps: Seq<usize>, c1: int, c2: int)
    requires
        forall|c: int| 0 <= c < comps.len() - 1 ==> #[trigger] comps[c] + 2 <= comps[c + 1],
        0 <= c1 <= c2 < comps.len(),
    ensures
        comps[c1] <= comps[c2],
    decreases c2 - c1,
{
    if c1 < c2 {
        lemma_sorted_from_gaps(comps, c1, c2 - 1);
        assert(comps[c2 - 1] + 2 <= comps[c2]);
    }
}

} // verus!
