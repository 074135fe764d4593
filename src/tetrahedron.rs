use vstd::prelude::*;

verus! {

/// The 16 ordered pairs of tetrahedron vertex indices, in lexicographic order.
pub open spec fn vertex_pairs() -> Seq<(usize, usize)> {
    Seq::new(16, |c: int| ((c / 4) as usize, (c % 4) as usize))
}

/// The edge from vertex `e.0` to vertex `e.1` leaves the level set: `e.0` lies outside and
/// `e.1` inside.
pub open spec fn is_cut(inside: [bool; 4], e: (usize, usize)) -> bool {
    e.0 < 4 && e.1 < 4 && !inside[e.0 as int] && inside[e.1 as int]
}

/// The edges of a tetrahedron that the level set crosses, each written from its outside vertex
/// to its inside vertex, in lexicographic order.
pub open spec fn cut_edges(inside: [bool; 4]) -> Seq<(usize, usize)> {
    vertex_pairs().filter(|e: (usize, usize)| is_cut(inside, e))
}

/// The faces over `n` crossing vertices: one triangle over three, a quadrilateral split into
/// two triangles over four, nothing otherwise.
pub open spec fn cut_faces(n: nat) -> Seq<[u32; 3]> {
    if n == 3 {
        seq![[0u32, 1u32, 2u32]]
    } else if n == 4 {
        seq![[0u32, 1u32, 2u32], [2u32, 1u32, 3u32]]
    } else {
        seq![]
    }
}

/// The number of vertices of a tetrahedron that lie inside.
pub open spec fn count_inside(inside: [bool; 4]) -> nat {
    (if inside[0] { 1nat } else { 0nat }) + (if inside[1] { 1nat } else { 0nat }) + (if inside[2] {
        1nat
    } else {
        0nat
    }) + (if inside[3] { 1nat } else { 0nat })
}

/// How the level set cuts one tetrahedron.
///
/// Vertex `k` of the cut lies on the tetrahedron edge `edges[k]`, written from its outside to
/// its inside vertex; with samples `u` and vertex payloads `v`, it is
/// `v[o].interpolate(&v[i], u[o], u[i])` for `(o, i) = edges[k]`, where a sample that lies
/// exactly on the level is first moved a tiny step inside. `faces` index into `edges`.
pub struct TetrahedronCut {
    pub edges: Vec<(usize, usize)>,
    pub faces: Vec<[u32; 3]>,
}

/// Intersects the level set with a tetrahedron whose vertex `k` lies inside the level set
/// exactly when `inside[k]` (its sample is at or above the level).
///
/// Every crossed edge gives one vertex, in lexicographic order of (outside, inside) vertex;
/// three vertices form one triangle, four a quadrilateral split along a fixed diagonal.
pub fn tetrahedron(inside: [bool; 4]) -> (r: TetrahedronCut)
    ensures
        r.edges@ == cut_edges(inside),
        r.faces@ == cut_faces(r.edges@.len()),
        r.edges@.len() == count_inside(inside) * (4 - count_inside(inside)),
        forall|k: int| 0 <= k < r.edges@.len() ==> is_cut(inside, #[trigger] r.edges@[k]),
{
    let mut edges: Vec<(usize, usize)> = Vec::new();
    let mut c: usize = 0;
    while c < 16
        invariant
            c <= 16,
            edges@ == vertex_pairs().take(c as int).filter(|e: (usize, usize)| is_cut(inside, e)),
        decreases 16 - c,
    {
        let o: usize = c / 4;
        let i: usize = c % 4;
        proof {
            reveal(Seq::filter);
            assert(vertex_pairs().take(c + 1).drop_last() =~= vertex_pairs().take(c as int));
            assert(vertex_pairs().take(c + 1).last() == (o, i));
        }
        if !inside[o] && inside[i] {
            edges.push((o, i));
        }
        c = c + 1;
    }
    proof {
        assert(vertex_pairs().take(16) =~= vertex_pairs());
        lemma_cut_count(inside);
        lemma_cut_edges_sound(inside);
    }
    let mut faces: Vec<[u32; 3]> = Vec::new();
    if edges.len() == 3 {
        faces.push([0, 1, 2]);
    } else if edges.len() == 4 {
        faces.push([0, 1, 2]);
        faces.push([2, 1, 3]);
    }
    proof {
        assert(faces@ =~= cut_faces(edges@.len()));
    }
    TetrahedronCut { edges, faces }
}

/// Every edge in a tetrahedron's cut goes from an outside vertex to an inside vertex.
pub proof fn lemma_cut_edges_sound(inside: [bool; 4])
    ensures
        forall|k: int|
            0 <= k < cut_edges(inside).len() ==> is_cut(inside, #[trigger] cut_edges(inside)[k]),
{
    let pred = |e: (usize, usize)| is_cut(inside, e);
    assert forall|k: int| 0 <= k < cut_edges(inside).len() implies is_cut(
        inside,
        #[trigger] cut_edges(inside)[k],
    ) by {
        vertex_pairs().lemma_filter_pred(pred, k);
    }
}

/// A tetrahedron with `n` vertices inside is crossed along `n * (4 - n)` edges: none when all
/// four vertices lie on one side, three when one vertex is alone on its side, four when two
/// lie on each side.
pub proof fn lemma_cut_count(inside: [bool; 4])
    ensures
        cut_edges(inside).len() == count_inside(inside) * (4 - count_inside(inside)),
{
    let pred = |e: (usize, usize)| is_cut(inside, e);
    let row = |o: usize| seq![(o, 0usize), (o, 1usize), (o, 2usize), (o, 3usize)];
    assert(vertex_pairs() =~= row(0) + row(1) + row(2) + row(3));
    Seq::filter_distributes_over_add(row(0) + row(1) + row(2), row(3), pred);
    Seq::filter_distributes_over_add(row(0) + row(1), row(2), pred);
    Seq::filter_distributes_over_add(row(0), row(1), pred);
    reveal_with_fuel(Seq::filter, 5);
    assert(row(0).drop_last().drop_last().drop_last().drop_last() =~= Seq::<(usize, usize)>::empty());
    let n = count_inside(inside);
    assert forall|o: usize| o < 4 implies #[trigger] row(o).filter(pred).len() == (if inside[
        o as int
    ] {
        0
    } else {
        n
    }) by {
        assert(row(o).drop_last() =~= seq![(o, 0usize), (o, 1usize), (o, 2usize)]);
        assert(row(o).drop_last().drop_last() =~= seq![(o, 0usize), (o, 1usize)]);
        assert(row(o).drop_last().drop_last().drop_last() =~= seq![(o, 0usize)]);
        assert(row(o).drop_last().drop_last().drop_last().drop_last() =~= Seq::<
            (usize, usize),
        >::empty());
    }
    assert(row(0).filter(pred).len() + row(1).filter(pred).len() + row(2).filter(pred).len()
        + row(3).filter(pred).len() == n * (4 - n)) by (nonlinear_arith)
        requires
            row(0).filter(pred).len() == (if inside[0] { 0 } else { n }),
            row(1).filter(pred).len() == (if inside[1] { 0 } else { n }),
            row(2).filter(pred).len() == (if inside[2] { 0 } else { n }),
            row(3).filter(pred).len() == (if inside[3] { 0 } else { n }),
            n == (if inside[0] { 1nat } else { 0nat }) + (if inside[1] { 1nat } else { 0nat }) + (
            if inside[2] {
                1nat
            } else {
                0nat
            }) + (if inside[3] { 1nat } else { 0nat }),
    ;
}

} // verus!
