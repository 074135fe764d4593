//! The machinery of the isoline tracer: the map of untraced segments, the walk along it, and
//! the invariant that the walk keeps.
use vstd::prelude::*;
use crate::isoline::{
    crossing_nodes, dual_side, has_link, is_link, is_square, isoline_of, joined, lemma_dual_nodes,
    components_maximal, corner_offset, lemma_partner_symmetric, links_sound, on_boundary,
    outer_side, partner_side, side_nodes, square_at, square_links,
    square_mask,
};
use crate::square::{corner_bit, crossed_sides, is_crossed, lemma_square_cases, side_corners};

verus! {

// The adjacency map of the tracer is a vector indexed by key code `6 * s + e` for side `e` of
// square `s`; it holds the code of the partner side while the segment has not been traced.

/// Each live entry names its partner side in the same square, which names it back.
#[verifier::opaque]
pub(crate) open spec fn adj_sym(inside: Seq<bool>, dim: (usize, usize), adj: Seq<Option<usize>>) -> bool {
    forall|k: int|
        0 <= k < adj.len() && (#[trigger] adj[k]) is Some ==> {
            let p = adj[k]->0 as int;
            &&& 0 <= p < adj.len()
            &&& p / 6 == k / 6
            &&& adj[p] == Some(k as usize)
            &&& partner_side(inside, dim.1 as int, k / 6, k % 6) == Some((p % 6) as usize)
        }
}

/// Each live entry belongs to a square of the grid.
#[verifier::opaque]
pub(crate) open spec fn adj_in_squares(dim: (usize, usize), adj: Seq<Option<usize>>) -> bool {
    forall|k: int|
        0 <= k < adj.len() && (#[trigger] adj[k]) is Some ==> exists|i: int, j: int|
            is_square(dim, i, j) && k / 6 == #[trigger] square_at(dim.1 as int, i, j)
}

/// The traced segments and the live entries together cover every level-set segment.
#[verifier::opaque]
pub(crate) open spec fn adj_covers(
    inside: Seq<bool>,
    dim: (usize, usize),
    adj: Seq<Option<usize>>,
    verts: Seq<(usize, usize)>,
    starts: Seq<usize>,
) -> bool {
    forall|i: int, j: int, e: int|
        is_square(dim, i, j) && 0 <= e < 6 && (#[trigger] partner_side(
            inside,
            dim.1 as int,
            square_at(dim.1 as int, i, j),
            e,
        )) is Some ==> {
            let s = square_at(dim.1 as int, i, j);
            let f = partner_side(inside, dim.1 as int, s, e)->0 as int;
            adj[6 * s + e] == Some((6 * s + f) as usize) || has_link(
                verts,
                starts,
                side_nodes(dim.1 as int, s, e),
                side_nodes(dim.1 as int, s, f),
            )
        }
}

/// Component starts strictly increase, every finished component has two vertices or more, and
/// the current one (the last) has at least one.
pub(crate) open spec fn starts_open(starts: Seq<usize>, n: int) -> bool {
    &&& starts.len() >= 1
    &&& starts[0] == 0
    &&& starts.last() < n
    &&& forall|c: int| 0 <= c < starts.len() - 1 ==> #[trigger] starts[c] + 2 <= starts[c + 1]
}

/// As `starts_open`, with the last component finished too.
pub(crate) open spec fn starts_closed(starts: Seq<usize>, n: int) -> bool {
    &&& starts.len() == 0 ==> n == 0
    &&& starts.len() >= 1 ==> starts[0] == 0 && starts.last() + 2 <= n
    &&& forall|c: int| 0 <= c < starts.len() - 1 ==> #[trigger] starts[c] + 2 <= starts[c + 1]
}

#[verifier::opaque]
pub(crate) open spec fn live_count(adj: Seq<Option<usize>>) -> nat
    decreases adj.len(),
{
    if adj.len() == 0 {
        0
    } else {
        live_count(adj.drop_last()) + if adj.last() is Some {
            1nat
        } else {
            0nat
        }
    }
}

pub(crate) proof fn lemma_live_remove(adj: Seq<Option<usize>>, k: int)
    requires
        0 <= k < adj.len(),
        adj[k] is Some,
    ensures
        live_count(adj.update(k, None)) + 1 == live_count(adj),
    decreases adj.len(),
{
    reveal(live_count);
    let u = adj.update(k, None);
    if k == adj.len() - 1 {
        assert(u.drop_last() =~= adj.drop_last());
    } else {
        assert(u.drop_last() =~= adj.drop_last().update(k, None));
        lemma_live_remove(adj.drop_last(), k);
    }
}

pub(crate) proof fn lemma_starts_increasing(starts: Seq<usize>, c1: int, c2: int)
    requires
        forall|c: int| 0 <= c < starts.len() - 1 ==> #[trigger] starts[c] + 2 <= starts[c + 1],
        0 <= c1 < c2 < starts.len(),
    ensures
        starts[c1] < starts[c2],
    decreases c2 - c1,
{
    if c2 - c1 > 1 {
        lemma_starts_increasing(starts, c1, c2 - 1);
    }
    assert(starts[c2 - 1] + 2 <= starts[c2]);
}

/// The code of the dual of side `k % 6` of square `k / 6`, when its square lies within the
/// first `len` indices.
pub(crate) fn dual_code(nj: usize, len: usize, k: usize) -> (r: Option<usize>)
    requires
        k / 6 >= nj + 1,
        k / 6 < len,
        len * 6 <= usize::MAX,
    ensures
        ({
            let d = dual_side(nj as int, (k / 6) as int, (k % 6) as int);
            &&& r matches Some(c) ==> c < 6 * len && c / 6 == d.0 && c % 6 == d.1
            &&& r is None ==> d.0 >= len
        }),
{
    let s = k / 6;
    let e = k % 6;
    let (t, f): (usize, usize) = if e == 0 {
        (s - nj, 5)
    } else if e == 1 {
        (s + 1, 4)
    } else if e == 2 {
        (s, 3)
    } else if e == 3 {
        (s, 2)
    } else if e == 4 {
        (s - 1, 1)
    } else {
        if s + nj >= len {
            return None;
        }
        (s + nj, 0)
    };
    if t >= len {
        return None;
    }
    Some(6 * t + f)
}

/// What a live entry of the map tells about its key and its partner.
pub(crate) proof fn lemma_trace_facts(inside: Seq<bool>, dim: (usize, usize), a1: Seq<Option<usize>>, next: int)
    requires
        a1.len() == 6 * (dim.0 * dim.1),
        a1.len() <= usize::MAX,
        adj_sym(inside, dim, a1),
        adj_in_squares(dim, a1),
        0 <= next < a1.len(),
        a1[next] is Some,
    ensures
        ({
            let other = a1[next]->0 as int;
            &&& 0 <= other < a1.len()
            &&& other != next
            &&& other / 6 == next / 6
            &&& next / 6 >= dim.1 + 1
            &&& next / 6 < dim.0 * dim.1
            &&& a1[other] == Some(next as usize)
            &&& partner_side(inside, dim.1 as int, next / 6, next % 6) == Some((other % 6) as usize)
        }),
{
    reveal(adj_sym);
    reveal(adj_in_squares);
    let nj = dim.1 as int;
    assert(a1[next] is Some);
    let (i, j) = choose|i: int, j: int| is_square(dim, i, j) && next / 6 == #[trigger] square_at(nj, i, j);
    let s = next / 6;
    assert(s >= nj + 1 && s < dim.0 * dim.1) by (nonlinear_arith)
        requires
            s == i * nj + j,
            1 <= i < dim.0,
            1 <= j < nj,
            nj == dim.1,
    ;
    lemma_partner_symmetric(inside, nj, s, next % 6);
}

/// After the segment from `next` to its partner leaves the map, the map is still symmetric
/// and within the squares, and has two live entries fewer.
pub(crate) proof fn lemma_step_map(inside: Seq<bool>, dim: (usize, usize), a1: Seq<Option<usize>>, next: int)
    requires
        a1.len() == 6 * (dim.0 * dim.1),
        a1.len() <= usize::MAX,
        adj_sym(inside, dim, a1),
        adj_in_squares(dim, a1),
        0 <= next < a1.len(),
        a1[next] is Some,
    ensures
        ({
            let other = a1[next]->0 as int;
            let a2 = a1.update(next, None).update(other, None);
            &&& adj_sym(inside, dim, a2)
            &&& adj_in_squares(dim, a2)
            &&& live_count(a2) + 2 == live_count(a1)
            &&& forall|k: int| 0 <= k < a1.len() && a1[k] is None ==> (#[trigger] a2[k]) is None
        }),
{
    let nj = dim.1 as int;
    let other = a1[next]->0 as int;
    let a2 = a1.update(next, None).update(other, None);
    lemma_trace_facts(inside, dim, a1, next);
    lemma_live_remove(a1, next);
    lemma_live_remove(a1.update(next, None), other);
    reveal(adj_sym);
    reveal(adj_in_squares);
    assert forall|k: int| 0 <= k < a2.len() && (#[trigger] a2[k]) is Some implies {
        let p = a2[k]->0 as int;
        &&& 0 <= p < a2.len()
        &&& p / 6 == k / 6
        &&& a2[p] == Some(k as usize)
        &&& partner_side(inside, nj, k / 6, k % 6) == Some((p % 6) as usize)
    } by {
        assert(k != next && k != other);
        assert(a2[k] == a1[k]);
        assert(a1[k] is Some);
        let p = a1[k]->0 as int;
        assert(a1[p] == Some(k as usize));
        if p == next {
            assert(a1[next] == Some(other as usize));
            assert(false);
        }
        if p == other {
            assert(a1[other] == Some(next as usize));
            assert(false);
        }
        assert(a2[p] == a1[p]);
    }
    assert forall|k: int| 0 <= k < a2.len() && (#[trigger] a2[k]) is Some implies exists|i: int, j: int|
        is_square(dim, i, j) && k / 6 == #[trigger] square_at(nj, i, j) by {
        assert(a1[k] is Some);
    }
}

/// The last vertex pushed is not the start of a component.
pub(crate) proof fn lemma_not_a_start(starts: Seq<usize>, l: int)
    requires
        starts_open(starts, l),
        l <= usize::MAX,
    ensures
        !starts.contains(l as usize),
{
    if starts.contains(l as usize) {
        let c = choose|c: int| 0 <= c < starts.len() && starts[c] == l as usize;
        if c < starts.len() - 1 {
            lemma_starts_increasing(starts, c, starts.len() - 1);
        }
    }
}

/// Links stay links when a vertex is pushed onto the current component.
pub(crate) proof fn lemma_push_keeps_links(v1: Seq<(usize, usize)>, starts: Seq<usize>, v: (usize, usize), x: int)
    requires
        is_link(starts, v1.len() as int, x),
    ensures
        is_link(starts, v1.len() + 1int, x),
        v1.push(v)[x] == v1[x],
        v1.push(v)[x + 1] == v1[x + 1],
{
}

/// After one step of the walk the links of the vertex buffer are still sound.
pub(crate) proof fn lemma_step_sound(
    inside: Seq<bool>,
    dim: (usize, usize),
    a1: Seq<Option<usize>>,
    v1: Seq<(usize, usize)>,
    starts: Seq<usize>,
    next: int,
)
    requires
        a1.len() == 6 * (dim.0 * dim.1),
        a1.len() <= usize::MAX,
        adj_sym(inside, dim, a1),
        adj_in_squares(dim, a1),
        links_sound(inside, dim, v1, starts),
        starts_open(starts, v1.len() as int),
        v1.len() <= usize::MAX,
        0 <= next < a1.len(),
        a1[next] is Some,
        v1.last() == side_nodes(dim.1 as int, next / 6, next % 6),
    ensures
        ({
            let other = a1[next]->0 as int;
            let v2 = v1.push(side_nodes(dim.1 as int, other / 6, other % 6));
            &&& links_sound(inside, dim, v2, starts)
            &&& starts_open(starts, v2.len() as int)
            &&& is_link(starts, v2.len() as int, v1.len() - 1)
        }),
{
    let nj = dim.1 as int;
    let other = a1[next]->0 as int;
    let v2 = v1.push(side_nodes(nj, other / 6, other % 6));
    lemma_trace_facts(inside, dim, a1, next);
    let s = next / 6;
    let e = next % 6;
    let l = v1.len() as int;
    lemma_not_a_start(starts, l);
    reveal(links_sound);
    assert forall|x: int| #[trigger] is_link(starts, v2.len() as int, x) implies joined(
        inside,
        dim,
        v2[x],
        v2[x + 1],
    ) by {
        if x == l - 1 {
            reveal(adj_in_squares);
            assert(a1[next] is Some);
            let (i, j) = choose|i: int, j: int| is_square(dim, i, j) && s == #[trigger] square_at(nj, i, j);
            assert(partner_side(inside, nj, square_at(nj, i, j), e) is Some);
        } else {
            assert(is_link(starts, v1.len() as int, x));
        }
    }
}

/// After one step of the walk every level-set segment is still live or linked.
#[verifier::rlimit(30)]
pub(crate) proof fn lemma_step_covers(
    inside: Seq<bool>,
    dim: (usize, usize),
    a1: Seq<Option<usize>>,
    v1: Seq<(usize, usize)>,
    starts: Seq<usize>,
    next: int,
)
    requires
        a1.len() == 6 * (dim.0 * dim.1),
        a1.len() <= usize::MAX,
        adj_sym(inside, dim, a1),
        adj_in_squares(dim, a1),
        adj_covers(inside, dim, a1, v1, starts),
        starts_open(starts, v1.len() as int),
        v1.len() <= usize::MAX,
        0 <= next < a1.len(),
        a1[next] is Some,
        v1.last() == side_nodes(dim.1 as int, next / 6, next % 6),
    ensures
        ({
            let other = a1[next]->0 as int;
            let a2 = a1.update(next, None).update(other, None);
            let v2 = v1.push(side_nodes(dim.1 as int, other / 6, other % 6));
            adj_covers(inside, dim, a2, v2, starts)
        }),
{
    let nj = dim.1 as int;
    let other = a1[next]->0 as int;
    let a2 = a1.update(next, None).update(other, None);
    let v = side_nodes(nj, other / 6, other % 6);
    let v2 = v1.push(v);
    lemma_trace_facts(inside, dim, a1, next);
    let l = v1.len() as int;
    lemma_not_a_start(starts, l);
    assert(is_link(starts, v2.len() as int, l - 1));
    reveal(adj_covers);
    assert forall|i: int, j: int, e2: int|
        is_square(dim, i, j) && 0 <= e2 < 6 && (#[trigger] partner_side(
            inside,
            nj,
            square_at(nj, i, j),
            e2,
        )) is Some implies {
        let s2 = square_at(nj, i, j);
        let f2 = partner_side(inside, nj, s2, e2)->0 as int;
        a2[6 * s2 + e2] == Some((6 * s2 + f2) as usize) || has_link(
            v2,
            starts,
            side_nodes(nj, s2, e2),
            side_nodes(nj, s2, f2),
        )
    } by {
        let s2 = square_at(nj, i, j);
        let f2 = partner_side(inside, nj, s2, e2)->0 as int;
        let k = 6 * s2 + e2;
        assert(0 <= s2 < dim.0 * dim.1) by (nonlinear_arith)
            requires
                s2 == i * nj + j,
                1 <= i < dim.0,
                1 <= j < nj,
                nj == dim.1,
        ;
        assert(0 <= k < a1.len());
        if k == next {
            assert(s2 == next / 6 && e2 == next % 6);
            assert(f2 == other % 6);
            assert(v2[l - 1] == side_nodes(nj, s2, e2));
            assert(v2[l] == side_nodes(nj, s2, f2));
            assert(is_link(starts, v2.len() as int, l - 1));
        } else if k == other {
            assert(s2 == other / 6 && e2 == other % 6);
            lemma_partner_symmetric(inside, nj, s2, next % 6);
            assert(f2 == next % 6);
            assert(v2[l - 1] == side_nodes(nj, s2, f2));
            assert(v2[l] == side_nodes(nj, s2, e2));
            assert(is_link(starts, v2.len() as int, l - 1));
        } else if a1[k] == Some((6 * s2 + f2) as usize) {
            assert(a2[k] == a1[k]);
        } else {
            let x = choose|x: int|
                #[trigger] is_link(starts, v1.len() as int, x) && ((v1[x] == side_nodes(nj, s2, e2)
                    && v1[x + 1] == side_nodes(nj, s2, f2)) || (v1[x] == side_nodes(nj, s2, f2)
                    && v1[x + 1] == side_nodes(nj, s2, e2)));
            lemma_push_keeps_links(v1, starts, v, x);
        }
    }
}

/// The tracer's invariant: the map is consistent, the links found so far are sound, and every
/// segment is live or linked.
#[verifier::opaque]
pub(crate) open spec fn trace_inv(
    inside: Seq<bool>,
    dim: (usize, usize),
    adj: Seq<Option<usize>>,
    verts: Seq<(usize, usize)>,
    starts: Seq<usize>,
) -> bool {
    &&& adj.len() == 6 * (dim.0 * dim.1)
    &&& adj.len() <= usize::MAX
    &&& adj_sym(inside, dim, adj)
    &&& adj_in_squares(dim, adj)
    &&& adj_covers(inside, dim, adj, verts, starts)
    &&& links_sound(inside, dim, verts, starts)
}

pub(crate) proof fn lemma_inv_len(
    inside: Seq<bool>,
    dim: (usize, usize),
    adj: Seq<Option<usize>>,
    verts: Seq<(usize, usize)>,
    starts: Seq<usize>,
)
    requires
        trace_inv(inside, dim, adj, verts, starts),
    ensures
        adj.len() == 6 * (dim.0 * dim.1),
        adj.len() <= usize::MAX,
{
    reveal(trace_inv);
}

pub(crate) proof fn lemma_inv_map(
    inside: Seq<bool>,
    dim: (usize, usize),
    adj: Seq<Option<usize>>,
    verts: Seq<(usize, usize)>,
    starts: Seq<usize>,
)
    requires
        trace_inv(inside, dim, adj, verts, starts),
    ensures
        adj_sym(inside, dim, adj),
        adj_in_squares(dim, adj),
{
    reveal(trace_inv);
}

/// One step of the walk, from the live key code `next`: removes its segment from the map and
/// pushes the crossing at its partner side. Returns the partner's code.
#[verifier::rlimit(30)]
pub(crate) fn trace_step(
    adj: &mut Vec<Option<usize>>,
    verts: &mut Vec<(usize, usize)>,
    starts: &Vec<usize>,
    inside: Ghost<Seq<bool>>,
    dim: (usize, usize),
    next: usize,
) -> (other: usize)
    requires
        trace_inv(inside@, dim, old(adj)@, old(verts)@, starts@),
        starts_open(starts@, old(verts)@.len() as int),
        next < old(adj)@.len(),
        old(adj)@[next as int] is Some,
        old(verts)@.last() == side_nodes(dim.1 as int, next as int / 6, next as int % 6),
    ensures
        trace_inv(inside@, dim, final(adj)@, final(verts)@, starts@),
        starts_open(starts@, final(verts)@.len() as int),
        final(adj)@.len() == old(adj)@.len(),
        other < old(adj)@.len(),
        other / 6 == next / 6,
        other / 6 >= dim.1 + 1,
        other / 6 < dim.0 * dim.1,
        final(verts)@ == old(verts)@.push(side_nodes(dim.1 as int, other as int / 6, other as int % 6)),
        forall|k: int| 0 <= k < old(adj)@.len() && old(adj)@[k] is None ==> (#[trigger] final(adj)@[k]) is None,
        live_count(final(adj)@) + 2 == live_count(old(adj)@),
        final(adj)@[next as int] is None,
        other == old(adj)@[next as int]->0,
        final(adj)@ == old(adj)@.update(next as int, None).update(other as int, None),
{
    let ghost a1 = adj@;
    let ghost v1 = verts@;
    // fixes the length of `verts` as a usize for the proofs below
    let n_verts = verts.len();
    proof {
        reveal(trace_inv);
        lemma_trace_facts(inside@, dim, a1, next as int);
    }
    let other = match adj[next] {
        Some(o) => o,
        None => next,
    };
    adj[next] = None;
    adj[other] = None;
    let v = crossing_nodes(dim.1, (other / 6, other % 6));
    verts.push(v);
    proof {
        lemma_step_map(inside@, dim, a1, next as int);
        lemma_step_sound(inside@, dim, a1, v1, starts@, next as int);
        lemma_step_covers(inside@, dim, a1, v1, starts@, next as int);
        assert(adj@ == a1.update(next as int, None).update(other as int, None));
    }
    other
}

/// Walks the level set from key code `start` while the map has a successor, pushing one vertex
/// per traced segment and removing each segment from the map.
#[verifier::rlimit(100)]
pub(crate) fn trace(
    adj: &mut Vec<Option<usize>>,
    verts: &mut Vec<(usize, usize)>,
    starts: &Vec<usize>,
    inside: Ghost<Seq<bool>>,
    dim: (usize, usize),
    start: usize,
    e0: Ghost<int>,
    backward: Ghost<bool>,
)
    requires
        trace_inv(inside@, dim, old(adj)@, old(verts)@, starts@),
        starts_open(starts@, old(verts)@.len() as int),
        start < old(adj)@.len(),
        old(adj)@[start as int] is Some,
        old(verts)@.last() == side_nodes(dim.1 as int, start as int / 6, start as int % 6),
        walk_ends(inside@, dim, old(adj)@, e0@, start as int, backward@, false),
    ensures
        walk_done(inside@, dim, final(adj)@, final(verts)@.last(), e0@, backward@),
        !live(final(adj)@, start as int),
        trace_inv(inside@, dim, final(adj)@, final(verts)@, starts@),
        starts_open(starts@, final(verts)@.len() as int),
        final(adj)@.len() == old(adj)@.len(),
        final(verts)@.len() >= old(verts)@.len(),
        final(verts)@.take(old(verts)@.len() as int) == old(verts)@,
        forall|k: int| 0 <= k < old(adj)@.len() && old(adj)@[k] is None ==> (#[trigger] final(adj)@[k]) is None,
        live_count(final(adj)@) <= live_count(old(adj)@),
        old(adj)@[start as int] is Some ==> final(verts)@.len() > old(verts)@.len()
            && live_count(final(adj)@) < live_count(old(adj)@),
        live_count(final(adj)@) + 2 * (final(verts)@.len() - old(verts)@.len()) == live_count(old(adj)@),
{
    let ghost adj0 = adj@;
    let ghost verts0 = verts@;
    let nj = dim.1;
    proof {
        lemma_inv_len(inside@, dim, adj@, verts@, starts@);
        assert(verts@.take(verts0.len() as int) =~= verts0);
    }
    let len = adj.len() / 6;
    let mut next = start;
    loop
        invariant_except_break
            walk_ends(inside@, dim, adj@, e0@, next as int, backward@, verts@.len() > verts0.len()),
            verts@.len() > verts0.len() ==> verts@.last() == side_nodes(
                nj as int,
                dual_key(nj as int, next as int) / 6,
                dual_key(nj as int, next as int) % 6,
            ),
        invariant
            nj == dim.1,
            len * 6 <= usize::MAX,
            trace_inv(inside@, dim, adj@, verts@, starts@),
            starts_open(starts@, verts@.len() as int),
            adj@.len() == adj0.len(),
            len * 6 == adj0.len(),
            len == dim.0 * dim.1,
            next < adj@.len(),
            adj@[next as int] is Some ==> verts@.last() == side_nodes(nj as int, next as int / 6, next as int % 6),
            verts@.len() >= verts0.len(),
            verts@.take(verts0.len() as int) == verts0,
            forall|k: int| 0 <= k < adj0.len() && adj0[k] is None ==> (#[trigger] adj@[k]) is None,
            live_count(adj@) <= live_count(adj0),
            (verts@.len() > verts0.len() && live_count(adj@) < live_count(adj0)) || (next == start
                && adj@[start as int] == adj0[start as int] && verts@ == verts0),
            start < adj0.len(),
            live_count(adj@) + 2 * (verts@.len() - verts0.len()) == live_count(adj0),
            adj0[start as int] is Some,
            !backward@ ==> start == e0@,
            backward@ ==> start == dual_key(nj as int, e0@),
        ensures
            adj0[start as int] is Some ==> verts@.len() > verts0.len() && live_count(adj@)
                < live_count(adj0),
            forall|k: int|
                consumed(inside@, dim, adj@, k) && #[trigger] live(adj@, dual_key(dim.1 as int, k))
                    ==> k == e0@,
            !backward@ ==> on_boundary(dim, verts@.last()) || (verts@.last() == side_nodes(
                dim.1 as int,
                e0@ / 6,
                e0@ % 6,
            ) && consumed(inside@, dim, adj@, dual_key(dim.1 as int, e0@))),
            backward@ ==> on_boundary(dim, verts@.last()),
            !backward@ ==> (consumed(inside@, dim, adj@, dual_key(dim.1 as int, e0@))
                ==> verts@.last() == side_nodes(dim.1 as int, e0@ / 6, e0@ % 6)),
            !live(adj@, start as int),
        decreases live_count(adj@),
    {
        if adj[next].is_none() {
            proof {
                assert(adj@[next as int] is None);
                if verts@.len() <= verts0.len() {
                    assert(next == start && adj0[start as int] is None);
                }
                lemma_walk_end(inside@, dim, adj@, e0@, next as int, backward@, verts@.last());
            }
            break ;
        }
        let ghost v1 = verts@;
        let ghost a1 = adj@;
        proof {
            lemma_inv_len(inside@, dim, adj@, verts@, starts@);
            lemma_inv_map(inside@, dim, adj@, verts@, starts@);
            lemma_step_ends(inside@, dim, a1, e0@, next as int, backward@, verts@.len() > verts0.len());
        }
        let other = trace_step(adj, verts, starts, inside, dim, next);
        proof {
            lemma_trace_facts(inside@, dim, a1, next as int);
            lemma_dual_key(nj as int, other as int);
            assert(verts@.last() == side_nodes(
                nj as int,
                dual_key(nj as int, dual_key(nj as int, other as int)) / 6,
                dual_key(nj as int, dual_key(nj as int, other as int)) % 6,
            ));
            assert(verts@.take(verts0.len() as int) =~= verts0) by {
                assert(v1.take(verts0.len() as int) == verts0);
            }
            assert forall|k: int| 0 <= k < adj0.len() && adj0[k] is None implies (#[trigger] adj@[k]) is None by {
                assert(a1[k] is None);
            }
        }
        assert(verts@.len() > verts0.len() && live_count(adj@) < live_count(adj0));
        match dual_code(nj, len, other) {
            None => {
                proof {
                    lemma_walk_end(
                        inside@,
                        dim,
                        adj@,
                        e0@,
                        dual_key(nj as int, other as int),
                        backward@,
                        verts@.last(),
                    );
                }
                break ;
            },
            Some(d) => {
                proof {
                    lemma_dual_nodes(nj as int, other as int / 6, other as int % 6);
                }
                next = d;
            },
        }
    }
    proof {
        reveal(walk_done);
    }
}

/// Reverses the vertices from position `from` on.
pub(crate) fn reverse_tail(verts: &mut Vec<(usize, usize)>, from: usize)
    requires
        from <= old(verts)@.len(),
    ensures
        final(verts)@ == old(verts)@.take(from as int) + old(verts)@.skip(from as int).reverse(),
{
    let ghost v0 = verts@;
    let ghost l = v0.len() as int;
    let mut tmp: Vec<(usize, usize)> = Vec::new();
    while verts.len() > from
        invariant
            from <= verts@.len() <= l,
            l == v0.len(),
            verts@ == v0.take(verts@.len() as int),
            tmp@ == v0.subrange(verts@.len() as int, l).reverse(),
        decreases verts@.len(),
    {
        let ghost n = verts@.len() as int;
        let x = verts.pop().unwrap();
        tmp.push(x);
        proof {
            assert(verts@ =~= v0.take(n - 1));
            assert(tmp@ =~= v0.subrange(n - 1, l).reverse());
        }
    }
    let ghost t = tmp@;
    let mut y: usize = 0;
    while y < tmp.len()
        invariant
            y <= tmp@.len(),
            tmp@ == t,
            verts@ == v0.take(from as int) + t.take(y as int),
        decreases tmp@.len() - y,
    {
        verts.push(tmp[y]);
        proof {
            assert(verts@ =~= v0.take(from as int) + t.take(y + 1));
        }
        y = y + 1;
    }
    proof {
        assert(t.take(y as int) =~= t);
        assert(v0.subrange(from as int, l) =~= v0.skip(from as int));
    }
}

/// `joined` does not depend on the order of its two grid segments.
pub(crate) proof fn lemma_joined_symmetric(inside: Seq<bool>, dim: (usize, usize), a: (usize, usize), b: (usize, usize))
    requires
        joined(inside, dim, a, b),
    ensures
        joined(inside, dim, b, a),
{
    let nj = dim.1 as int;
    let (i, j, e) = choose|i: int, j: int, e: int|
        is_square(dim, i, j) && 0 <= e < 6 && (#[trigger] partner_side(inside, nj, square_at(nj, i, j), e))
            is Some && a == side_nodes(nj, square_at(nj, i, j), e) && b == side_nodes(
            nj,
            square_at(nj, i, j),
            partner_side(inside, nj, square_at(nj, i, j), e)->0 as int,
        );
    let f = partner_side(inside, nj, square_at(nj, i, j), e)->0 as int;
    lemma_partner_symmetric(inside, nj, square_at(nj, i, j), e);
    assert(partner_side(inside, nj, square_at(nj, i, j), f) is Some);
}

/// The vertex buffer with the current component, from its start on, reversed.
pub(crate) open spec fn reversed_tail(v1: Seq<(usize, usize)>, starts: Seq<usize>) -> Seq<(usize, usize)> {
    v1.take(starts.last() as int) + v1.skip(starts.last() as int).reverse()
}

/// Facts on the reversal used by both halves of the proof that it keeps the invariant.
pub(crate) proof fn lemma_reverse_shape(v1: Seq<(usize, usize)>, starts: Seq<usize>)
    requires
        starts_open(starts, v1.len() as int),
        v1.len() <= usize::MAX,
    ensures
        ({
            let from = starts.last() as int;
            let l = v1.len() as int;
            let v2 = reversed_tail(v1, starts);
            &&& v2.len() == l
            &&& forall|x: int| from <= x < l ==> #[trigger] v2[x] == v1[from + l - 1 - x]
            &&& forall|x: int| 0 <= x < from ==> #[trigger] v2[x] == v1[x]
            &&& forall|x: int| from <= x < l - 1 ==> #[trigger] is_link(starts, l, x)
            &&& !is_link(starts, l, from - 1)
        }),
{
    let from = starts.last() as int;
    let l = v1.len() as int;
    assert forall|c: int| 0 <= c < starts.len() implies #[trigger] starts[c] <= from by {
        if c < starts.len() - 1 {
            lemma_starts_increasing(starts, c, starts.len() - 1);
        }
    }
    assert forall|x: int| from <= x < l - 1 implies #[trigger] is_link(starts, l, x) by {
        if starts.contains((x + 1) as usize) {
            let c = choose|c: int| 0 <= c < starts.len() && starts[c] == (x + 1) as usize;
            assert(starts[c] <= from);
        }
    }
    assert(starts[starts.len() - 1] == from);
}

/// Reversing the current component keeps its links sound.
#[verifier::rlimit(50)]
pub(crate) proof fn lemma_reverse_sound(inside: Seq<bool>, dim: (usize, usize), v1: Seq<(usize, usize)>, starts: Seq<usize>)
    requires
        links_sound(inside, dim, v1, starts),
        starts_open(starts, v1.len() as int),
        v1.len() <= usize::MAX,
    ensures
        links_sound(inside, dim, reversed_tail(v1, starts), starts),
{
    let from = starts.last() as int;
    let l = v1.len() as int;
    let v2 = reversed_tail(v1, starts);
    lemma_reverse_shape(v1, starts);
    reveal(links_sound);
    assert forall|x: int| #[trigger] is_link(starts, v2.len() as int, x) implies joined(
        inside,
        dim,
        v2[x],
        v2[x + 1],
    ) by {
        if x + 1 < from {
            assert(is_link(starts, l, x));
        } else if x + 1 == from {
        } else {
            let y = from + l - 2 - x;
            assert(is_link(starts, l, y));
            assert(v2[x] == v1[y + 1] && v2[x + 1] == v1[y]);
            lemma_joined_symmetric(inside, dim, v1[y], v1[y + 1]);
        }
    }
}

/// Reversing the current component keeps every segment live or linked.
#[verifier::rlimit(30)]
pub(crate) proof fn lemma_reverse_covers(
    inside: Seq<bool>,
    dim: (usize, usize),
    adj: Seq<Option<usize>>,
    v1: Seq<(usize, usize)>,
    starts: Seq<usize>,
)
    requires
        adj_covers(inside, dim, adj, v1, starts),
        starts_open(starts, v1.len() as int),
        v1.len() <= usize::MAX,
    ensures
        adj_covers(inside, dim, adj, reversed_tail(v1, starts), starts),
{
    let from = starts.last() as int;
    let l = v1.len() as int;
    let v2 = reversed_tail(v1, starts);
    lemma_reverse_shape(v1, starts);
    reveal(adj_covers);
    assert forall|i: int, j: int, e: int|
        is_square(dim, i, j) && 0 <= e < 6 && (#[trigger] partner_side(
            inside,
            dim.1 as int,
            square_at(dim.1 as int, i, j),
            e,
        )) is Some implies {
        let s = square_at(dim.1 as int, i, j);
        let f = partner_side(inside, dim.1 as int, s, e)->0 as int;
        adj[6 * s + e] == Some((6 * s + f) as usize) || has_link(
            v2,
            starts,
            side_nodes(dim.1 as int, s, e),
            side_nodes(dim.1 as int, s, f),
        )
    } by {
        let s = square_at(dim.1 as int, i, j);
        let f = partner_side(inside, dim.1 as int, s, e)->0 as int;
        let a = side_nodes(dim.1 as int, s, e);
        let b = side_nodes(dim.1 as int, s, f);
        if !(adj[6 * s + e] == Some((6 * s + f) as usize)) {
            assert(has_link(v1, starts, a, b));
            let y = choose|y: int|
                #[trigger] is_link(starts, l, y) && ((v1[y] == a && v1[y + 1] == b) || (v1[y] == b
                    && v1[y + 1] == a));
            if y + 1 < from {
                assert(is_link(starts, v2.len() as int, y));
            } else {
                let x = from + l - 2 - y;
                assert(is_link(starts, v2.len() as int, x));
                assert(v2[x] == v1[y + 1] && v2[x + 1] == v1[y]);
            }
        }
    }
}

/// Reversing the current component keeps the tracer's invariant; its last vertex becomes the
/// first vertex it had.
pub(crate) proof fn lemma_reverse_keeps(
    inside: Seq<bool>,
    dim: (usize, usize),
    adj: Seq<Option<usize>>,
    v1: Seq<(usize, usize)>,
    starts: Seq<usize>,
)
    requires
        trace_inv(inside, dim, adj, v1, starts),
        starts_open(starts, v1.len() as int),
        v1.len() <= usize::MAX,
    ensures
        ({
            let v2 = reversed_tail(v1, starts);
            &&& trace_inv(inside, dim, adj, v2, starts)
            &&& starts_open(starts, v2.len() as int)
            &&& v2.len() == v1.len()
            &&& v2.last() == v1[starts.last() as int]
        }),
{
    lemma_reverse_shape(v1, starts);
    reveal(trace_inv);
    lemma_reverse_sound(inside, dim, v1, starts);
    lemma_reverse_covers(inside, dim, adj, v1, starts);
}

/// Square `(i1, j1)` comes before square `(i2, j2)` in row-major order.
pub(crate) open spec fn before(i1: int, j1: int, i2: int, j2: int) -> bool {
    i1 < i2 || (i1 == i2 && j1 < j2)
}

/// Squares in row-major order have increasing indices.
pub(crate) proof fn lemma_square_order(dim: (usize, usize), i1: int, j1: int, i2: int, j2: int)
    requires
        is_square(dim, i1, j1),
        is_square(dim, i2, j2),
        before(i1, j1, i2, j2),
    ensures
        square_at(dim.1 as int, i1, j1) < square_at(dim.1 as int, i2, j2),
{
    let nj = dim.1 as int;
    if i1 < i2 {
        assert(i1 * nj + j1 < i2 * nj + j2) by (nonlinear_arith)
            requires
                i1 < i2,
                0 <= j1 < nj,
                0 <= j2,
        ;
    }
}

/// The entries of the squares before `(i, j)`, and nothing else, are in the map.
#[verifier::opaque]
pub(crate) open spec fn adj_built(inside: Seq<bool>, dim: (usize, usize), adj: Seq<Option<usize>>, i: int, j: int) -> bool {
    &&& adj.len() == 6 * (dim.0 * dim.1)
    &&& adj.len() <= usize::MAX
    &&& adj_sym(inside, dim, adj)
    &&& forall|k: int|
        0 <= k < adj.len() && (#[trigger] adj[k]) is Some ==> exists|i2: int, j2: int|
            is_square(dim, i2, j2) && before(i2, j2, i, j) && k / 6 == #[trigger] square_at(
                dim.1 as int,
                i2,
                j2,
            )
    &&& forall|i2: int, j2: int, e: int|
        is_square(dim, i2, j2) && before(i2, j2, i, j) && 0 <= e < 6 && (#[trigger] partner_side(
            inside,
            dim.1 as int,
            square_at(dim.1 as int, i2, j2),
            e,
        )) is Some ==> {
            let s2 = square_at(dim.1 as int, i2, j2);
            adj[6 * s2 + e] == Some(
                (6 * s2 + partner_side(inside, dim.1 as int, s2, e)->0) as usize,
            )
        }
}

/// The map with the segments of square `s` added.
pub(crate) open spec fn with_square(adj: Seq<Option<usize>>, inside: Seq<bool>, nj: int, s: int) -> Seq<Option<usize>> {
    Seq::new(
        adj.len(),
        |k: int|
            if k / 6 == s && partner_side(inside, nj, s, k % 6) is Some {
                Some((6 * s + partner_side(inside, nj, s, k % 6)->0) as usize)
            } else {
                adj[k]
            },
    )
}

/// Adding square `(i, j)` to a map that holds the squares before it gives the map that holds
/// the squares up to it.
#[verifier::rlimit(30)]
pub(crate) proof fn lemma_add_square(inside: Seq<bool>, dim: (usize, usize), adj: Seq<Option<usize>>, i: int, j: int)
    requires
        adj_built(inside, dim, adj, i, j),
        is_square(dim, i, j),
    ensures
        adj_built(inside, dim, with_square(adj, inside, dim.1 as int, square_at(dim.1 as int, i, j)), i, j + 1),
        forall|e: int| 0 <= e < 6 ==> (#[trigger] adj[6 * square_at(dim.1 as int, i, j) + e]) is None,
        6 * square_at(dim.1 as int, i, j) + 6 <= adj.len(),
{
    reveal(adj_built);
    reveal(adj_sym);
    let nj = dim.1 as int;
    let s = square_at(nj, i, j);
    let a2 = with_square(adj, inside, nj, s);
    assert(0 <= s < dim.0 * dim.1) by (nonlinear_arith)
        requires
            s == i * nj + j,
            1 <= i < dim.0,
            1 <= j < nj,
            nj == dim.1,
    ;
    // entries of square s were empty
    assert forall|e: int| 0 <= e < 6 implies #[trigger] adj[6 * s + e] is None by {
        let k = 6 * s + e;
        if adj[k] is Some {
            let (i2, j2) = choose|i2: int, j2: int|
                is_square(dim, i2, j2) && before(i2, j2, i, j) && k / 6 == #[trigger] square_at(nj, i2, j2);
            lemma_square_order(dim, i2, j2, i, j);
        }
    }
    assert forall|k: int| 0 <= k < a2.len() && (#[trigger] a2[k]) is Some implies {
        let p = a2[k]->0 as int;
        &&& 0 <= p < a2.len()
        &&& p / 6 == k / 6
        &&& a2[p] == Some(k as usize)
        &&& partner_side(inside, nj, k / 6, k % 6) == Some((p % 6) as usize)
    } by {
        if k / 6 == s && partner_side(inside, nj, s, k % 6) is Some {
            lemma_partner_symmetric(inside, nj, s, k % 6);
        } else {
            assert(adj[k] is Some);
            let p = adj[k]->0 as int;
            if p / 6 == s {
                assert(adj[6 * s + p % 6] is None);
            }
        }
    }
    assert forall|k: int| 0 <= k < a2.len() && (#[trigger] a2[k]) is Some implies exists|i2: int, j2: int|
        is_square(dim, i2, j2) && before(i2, j2, i, j + 1) && k / 6 == #[trigger] square_at(nj, i2, j2) by {
        if k / 6 == s && partner_side(inside, nj, s, k % 6) is Some {
            assert(is_square(dim, i, j) && before(i, j, i, j + 1) && k / 6 == square_at(nj, i, j));
        } else {
            assert(adj[k] is Some);
        }
    }
    assert forall|i2: int, j2: int, e: int|
        is_square(dim, i2, j2) && before(i2, j2, i, j + 1) && 0 <= e < 6 && (#[trigger] partner_side(
            inside,
            nj,
            square_at(nj, i2, j2),
            e,
        )) is Some implies {
        let s2 = square_at(nj, i2, j2);
        a2[6 * s2 + e] == Some((6 * s2 + partner_side(inside, nj, s2, e)->0) as usize)
    } by {
        let s2 = square_at(nj, i2, j2);
        assert(0 <= s2 < dim.0 * dim.1) by (nonlinear_arith)
            requires
                s2 == i2 * nj + j2,
                1 <= i2 < dim.0,
                1 <= j2 < nj,
                nj == dim.1,
        ;
        if i2 == i && j2 == j {
        } else {
            lemma_square_order(dim, i2, j2, i, j);
        }
    }
}

/// A square's segments in the map, entry by entry.
pub(crate) fn add_square_to_map(
    adj: &mut Vec<Option<usize>>,
    table: &Vec<Vec<usize>>,
    inside: &[bool],
    nj: usize,
    s: usize,
)
    requires
        s < inside@.len(),
        s >= nj + 1,
        6 * s + 6 <= old(adj)@.len(),
        table@.len() == 16,
        forall|m: int| 0 <= m < 16 ==> (#[trigger] table@[m])@ == crossed_sides(m),
        forall|e: int| 0 <= e < 6 ==> (#[trigger] old(adj)@[6 * s + e]) is None,
    ensures
        final(adj)@ == with_square(old(adj)@, inside@, nj as int, s as int),
        live_count(final(adj)@) == live_count(old(adj)@) + 2 * square_links(inside@, nj as int, s as int).len(),
{
    let mask: usize = (if inside[s] { 8 } else { 0 }) + (if inside[s - nj] { 4 } else { 0 })
        + (if inside[s - 1] { 2 } else { 0 }) + (if inside[s - nj - 1] { 1 } else { 0 });
    assert(mask == square_mask(inside@, nj as int, s as int));
    let c = &table[mask];
    proof {
        lemma_square_cases(mask as int);
    }
    let ghost a0 = adj@;
    let n = adj.len();
    let base = 6 * s;
    if c.len() >= 2 {
        adj[base + c[0]] = Some(base + c[1]);
        adj[base + c[1]] = Some(base + c[0]);
        if c.len() >= 4 {
            adj[base + c[2]] = Some(base + c[3]);
            adj[base + c[3]] = Some(base + c[2]);
        }
    }
    proof {
        lemma_square_updates(a0, inside@, nj as int, s as int);
        lemma_square_updates_count(a0, inside@, nj as int, s as int);
    }
}

/// Adding an entry where there was none adds one live entry.
pub(crate) proof fn lemma_live_add(adj: Seq<Option<usize>>, k: int, v: usize)
    requires
        0 <= k < adj.len(),
        adj[k] is None,
    ensures
        live_count(adj.update(k, Some(v))) == live_count(adj) + 1,
{
    let a1 = adj.update(k, Some(v));
    lemma_live_remove(a1, k);
    assert(a1.update(k, None) =~= adj);
}

/// A map with no entry has no live entry.
pub(crate) proof fn lemma_live_none(adj: Seq<Option<usize>>)
    requires
        forall|x: int| 0 <= x < adj.len() ==> (#[trigger] adj[x]) is None,
    ensures
        live_count(adj) == 0,
    decreases adj.len(),
{
    reveal(live_count);
    if adj.len() > 0 {
        lemma_live_none(adj.drop_last());
    }
}

/// Writing a square's segments into empty entries adds two live entries per segment.
pub(crate) proof fn lemma_square_updates_count(adj: Seq<Option<usize>>, inside: Seq<bool>, nj: int, s: int)
    requires
        0 <= s,
        6 * s + 6 <= adj.len(),
        0 <= square_mask(inside, nj, s) < 16,
        forall|e: int| 0 <= e < 6 ==> (#[trigger] adj[6 * s + e]) is None,
    ensures
        live_count(square_updates(adj, inside, nj, s)) == live_count(adj) + 2 * square_links(inside, nj, s).len(),
{
    let c = crossed_sides(square_mask(inside, nj, s));
    lemma_square_cases(square_mask(inside, nj, s));
    let b = 6 * s;
    if c.len() >= 2 {
        let x0 = adj.update(b + c[0], Some((b + c[1]) as usize));
        assert(adj[b + c[0]] is None);
        lemma_live_add(adj, b + c[0], (b + c[1]) as usize);
        assert(x0[b + c[1]] is None) by {
            assert(adj[b + c[1]] is None);
        }
        let x1 = x0.update(b + c[1], Some((b + c[0]) as usize));
        lemma_live_add(x0, b + c[1], (b + c[0]) as usize);
        if c.len() >= 4 {
            assert(x1[b + c[2]] is None) by {
                assert(adj[b + c[2]] is None);
            }
            let x2 = x1.update(b + c[2], Some((b + c[3]) as usize));
            lemma_live_add(x1, b + c[2], (b + c[3]) as usize);
            assert(x2[b + c[3]] is None) by {
                assert(adj[b + c[3]] is None);
            }
            lemma_live_add(x2, b + c[3], (b + c[2]) as usize);
        }
    }
}

/// The map with the segments of square `s` written in, pair by pair.
pub(crate) open spec fn square_updates(adj: Seq<Option<usize>>, inside: Seq<bool>, nj: int, s: int) -> Seq<Option<usize>> {
    let c = crossed_sides(square_mask(inside, nj, s));
    let b = 6 * s;
    if c.len() >= 2 {
        let a1 = adj.update(b + c[0], Some((b + c[1]) as usize)).update(b + c[1], Some((b + c[0]) as usize));
        if c.len() >= 4 {
            a1.update(b + c[2], Some((b + c[3]) as usize)).update(b + c[3], Some((b + c[2]) as usize))
        } else {
            a1
        }
    } else {
        adj
    }
}

#[verifier::rlimit(40)]
pub(crate) proof fn lemma_square_updates(adj: Seq<Option<usize>>, inside: Seq<bool>, nj: int, s: int)
    requires
        0 <= s,
        6 * s + 6 <= adj.len(),
        0 <= square_mask(inside, nj, s) < 16,
    ensures
        square_updates(adj, inside, nj, s) == with_square(adj, inside, nj, s),
{
    let m = square_mask(inside, nj, s);
    lemma_square_cases(m);
    let u = square_updates(adj, inside, nj, s);
    let w = with_square(adj, inside, nj, s);
    assert forall|k: int| 0 <= k < adj.len() implies #[trigger] u[k] == w[k] by {
        if k / 6 == s {
            assert(k == 6 * s + k % 6);
        }
    }
    assert(u =~= w);
}

/// The first live key code at or after `from`, or the length of the map.
pub(crate) fn next_live(adj: &Vec<Option<usize>>, from: usize) -> (r: usize)
    requires
        from <= adj@.len(),
    ensures
        from <= r <= adj@.len(),
        forall|x: int| from <= x < r ==> (#[trigger] adj@[x]) is None,
        r < adj@.len() ==> adj@[r as int] is Some,
{
    let mut c = from;
    while c < adj.len() && adj[c].is_none()
        invariant
            from <= c <= adj@.len(),
            forall|x: int| from <= x < c ==> (#[trigger] adj@[x]) is None,
        decreases adj@.len() - c,
    {
        c = c + 1;
    }
    c
}

/// Opening a component moves no link.
pub(crate) proof fn lemma_new_start_links(verts: Seq<(usize, usize)>, starts: Seq<usize>, v: (usize, usize))
    requires
        verts.len() < usize::MAX,
    ensures
        forall|x: int| #[trigger] is_link(starts.push(verts.len() as usize), verts.len() + 1int, x)
            <==> is_link(starts, verts.len() as int, x),
        forall|x: int| 0 <= x < verts.len() ==> #[trigger] verts.push(v)[x] == verts[x],
{
    let l = verts.len() as int;
    let s2 = starts.push(l as usize);
    assert forall|x: int| #[trigger] is_link(s2, l + 1, x) <==> is_link(starts, l, x) by {
        if 0 <= x && x + 1 == l {
            assert(s2[s2.len() - 1] == l as usize);
        }
        if starts.contains((x + 1) as usize) {
            let c = choose|c: int| 0 <= c < starts.len() && starts[c] == (x + 1) as usize;
            assert(s2[c] == (x + 1) as usize);
        }
        if s2.contains((x + 1) as usize) && 0 <= x && x + 1 < l {
            let c = choose|c: int| 0 <= c < s2.len() && s2[c] == (x + 1) as usize;
            if c < starts.len() {
                assert(starts[c] == (x + 1) as usize);
            }
        }
    }
}

/// Opening a component keeps the invariant.
pub(crate) proof fn lemma_new_component(
    inside: Seq<bool>,
    dim: (usize, usize),
    adj: Seq<Option<usize>>,
    verts: Seq<(usize, usize)>,
    starts: Seq<usize>,
    v: (usize, usize),
)
    requires
        trace_inv(inside, dim, adj, verts, starts),
        starts_closed(starts, verts.len() as int),
        verts.len() < usize::MAX,
    ensures
        trace_inv(inside, dim, adj, verts.push(v), starts.push(verts.len() as usize)),
        starts_open(starts.push(verts.len() as usize), verts.len() + 1int),
{
    let l = verts.len() as int;
    let s2 = starts.push(l as usize);
    lemma_new_start_links(verts, starts, v);
    reveal(trace_inv);
    lemma_new_component_sound(inside, dim, verts, starts, v);
    lemma_new_component_covers(inside, dim, adj, verts, starts, v);
    if starts.len() > 0 {
        assert(s2[starts.len() - 1] + 2 <= s2[starts.len() as int]);
    }
}

pub(crate) proof fn lemma_new_component_sound(
    inside: Seq<bool>,
    dim: (usize, usize),
    verts: Seq<(usize, usize)>,
    starts: Seq<usize>,
    v: (usize, usize),
)
    requires
        links_sound(inside, dim, verts, starts),
        verts.len() < usize::MAX,
    ensures
        links_sound(inside, dim, verts.push(v), starts.push(verts.len() as usize)),
{
    lemma_new_start_links(verts, starts, v);
    reveal(links_sound);
    let l = verts.len() as int;
    assert forall|x: int| #[trigger] is_link(starts.push(l as usize), l + 1, x) implies joined(
        inside,
        dim,
        verts.push(v)[x],
        verts.push(v)[x + 1],
    ) by {
        assert(is_link(starts, l, x));
    }
}

#[verifier::rlimit(30)]
pub(crate) proof fn lemma_new_component_covers(
    inside: Seq<bool>,
    dim: (usize, usize),
    adj: Seq<Option<usize>>,
    verts: Seq<(usize, usize)>,
    starts: Seq<usize>,
    v: (usize, usize),
)
    requires
        adj_covers(inside, dim, adj, verts, starts),
        verts.len() < usize::MAX,
    ensures
        adj_covers(inside, dim, adj, verts.push(v), starts.push(verts.len() as usize)),
{
    lemma_new_start_links(verts, starts, v);
    reveal(adj_covers);
    let l = verts.len() as int;
    let v2 = verts.push(v);
    let s2 = starts.push(l as usize);
    assert forall|i: int, j: int, e: int|
        is_square(dim, i, j) && 0 <= e < 6 && (#[trigger] partner_side(
            inside,
            dim.1 as int,
            square_at(dim.1 as int, i, j),
            e,
        )) is Some implies {
        let s = square_at(dim.1 as int, i, j);
        let f = partner_side(inside, dim.1 as int, s, e)->0 as int;
        adj[6 * s + e] == Some((6 * s + f) as usize) || has_link(
            v2,
            s2,
            side_nodes(dim.1 as int, s, e),
            side_nodes(dim.1 as int, s, f),
        )
    } by {
        let s = square_at(dim.1 as int, i, j);
        let f = partner_side(inside, dim.1 as int, s, e)->0 as int;
        let a = side_nodes(dim.1 as int, s, e);
        let b = side_nodes(dim.1 as int, s, f);
        if !(adj[6 * s + e] == Some((6 * s + f) as usize)) {
            let y = choose|y: int|
                #[trigger] is_link(starts, l, y) && ((verts[y] == a && verts[y + 1] == b) || (
                verts[y] == b && verts[y + 1] == a));
            assert(is_link(s2, l + 1, y));
            assert(is_link(s2, v2.len() as int, y));
            assert(v2[y] == verts[y]);
            assert(v2[y + 1] == verts[y + 1]);
        }
    }
}

pub(crate) proof fn lemma_live_bound(adj: Seq<Option<usize>>)
    ensures
        live_count(adj) <= adj.len(),
    decreases adj.len(),
{
    reveal(live_count);
    if adj.len() > 0 {
        lemma_live_bound(adj.drop_last());
    }
}

/// A component that has two vertices or more is finished.
pub(crate) proof fn lemma_component_done(starts: Seq<usize>, n: int)
    requires
        starts_open(starts, n),
        starts.last() + 2 <= n,
    ensures
        starts_closed(starts, n),
{
}

/// A map built from every square of the grid satisfies the tracer's invariant, with nothing
/// traced yet.
pub(crate) proof fn lemma_built_all(inside: Seq<bool>, dim: (usize, usize), adj: Seq<Option<usize>>, i: int)
    requires
        adj_built(inside, dim, adj, i, 1),
        i >= dim.0,
    ensures
        trace_inv(inside, dim, adj, seq![], seq![]),
        starts_closed(seq![], 0),
{
    reveal(adj_built);
    reveal(trace_inv);
    reveal(adj_in_squares);
    reveal(adj_covers);
    reveal(links_sound);
    let nj = dim.1 as int;
    assert forall|k: int| 0 <= k < adj.len() && (#[trigger] adj[k]) is Some implies exists|i2: int, j2: int|
        is_square(dim, i2, j2) && k / 6 == #[trigger] square_at(nj, i2, j2) by {
        let (i2, j2) = choose|i2: int, j2: int|
            is_square(dim, i2, j2) && before(i2, j2, i, 1) && k / 6 == #[trigger] square_at(nj, i2, j2);
    }
    assert forall|i2: int, j2: int, e: int|
        is_square(dim, i2, j2) && 0 <= e < 6 && (#[trigger] partner_side(
            inside,
            nj,
            square_at(nj, i2, j2),
            e,
        )) is Some implies {
        let s = square_at(nj, i2, j2);
        let f = partner_side(inside, nj, s, e)->0 as int;
        adj[6 * s + e] == Some((6 * s + f) as usize) || has_link(
            seq![],
            seq![],
            side_nodes(nj, s, e),
            side_nodes(nj, s, f),
        )
    } by {
        assert(before(i2, j2, i, 1));
    }
}

/// The squares before the end of row `i` are those before the start of row `i + 1`.
pub(crate) proof fn lemma_next_row(inside: Seq<bool>, dim: (usize, usize), adj: Seq<Option<usize>>, i: int, j: int)
    requires
        adj_built(inside, dim, adj, i, j),
        j >= dim.1,
    ensures
        adj_built(inside, dim, adj, i + 1, 1),
{
    reveal(adj_built);
    let nj = dim.1 as int;
    assert forall|k: int| 0 <= k < adj.len() && (#[trigger] adj[k]) is Some implies exists|i2: int, j2: int|
        is_square(dim, i2, j2) && before(i2, j2, i + 1, 1) && k / 6 == #[trigger] square_at(nj, i2, j2) by {
        let (i2, j2) = choose|i2: int, j2: int|
            is_square(dim, i2, j2) && before(i2, j2, i, j) && k / 6 == #[trigger] square_at(nj, i2, j2);
    }
    assert forall|i2: int, j2: int, e: int|
        is_square(dim, i2, j2) && before(i2, j2, i + 1, 1) && 0 <= e < 6 && (#[trigger] partner_side(
            inside,
            nj,
            square_at(nj, i2, j2),
            e,
        )) is Some implies {
        let s2 = square_at(nj, i2, j2);
        adj[6 * s2 + e] == Some((6 * s2 + partner_side(inside, nj, s2, e)->0) as usize)
    } by {
        assert(before(i2, j2, i, j));
    }
}

/// Closing the list of component starts with the number of vertices gives an isoline, once
/// nothing is left in the map.
pub(crate) proof fn lemma_finish(
    inside: Seq<bool>,
    dim: (usize, usize),
    adj: Seq<Option<usize>>,
    verts: Seq<(usize, usize)>,
    starts: Seq<usize>,
)
    requires
        trace_inv(inside, dim, adj, verts, starts),
        starts_closed(starts, verts.len() as int),
        forall|x: int| 0 <= x < adj.len() ==> (#[trigger] adj[x]) is None,
        verts.len() <= usize::MAX,
    ensures
        isoline_of(inside, dim, verts, starts.push(verts.len() as usize)),
{
    let l = verts.len() as int;
    let c2 = starts.push(l as usize);
    reveal(trace_inv);
    reveal(links_sound);
    reveal(adj_covers);
    assert forall|x: int| #[trigger] is_link(c2, l, x) <==> is_link(starts, l, x) by {
        if c2.contains((x + 1) as usize) && 0 <= x && x + 1 < l {
            let c = choose|c: int| 0 <= c < c2.len() && c2[c] == (x + 1) as usize;
            if c < starts.len() {
                assert(starts[c] == (x + 1) as usize);
            }
        }
        if starts.contains((x + 1) as usize) {
            let c = choose|c: int| 0 <= c < starts.len() && starts[c] == (x + 1) as usize;
            assert(c2[c] == (x + 1) as usize);
        }
    }
    assert forall|i: int, j: int, e: int|
        is_square(dim, i, j) && 0 <= e < 6 && (#[trigger] partner_side(
            inside,
            dim.1 as int,
            square_at(dim.1 as int, i, j),
            e,
        )) is Some implies has_link(
        verts,
        c2,
        side_nodes(dim.1 as int, square_at(dim.1 as int, i, j), e),
        side_nodes(
            dim.1 as int,
            square_at(dim.1 as int, i, j),
            partner_side(inside, dim.1 as int, square_at(dim.1 as int, i, j), e)->0 as int,
        ),
    ) by {
        let s = square_at(dim.1 as int, i, j);
        let f = partner_side(inside, dim.1 as int, s, e)->0 as int;
        let a = side_nodes(dim.1 as int, s, e);
        let b = side_nodes(dim.1 as int, s, f);
        assert(0 <= s < dim.0 * dim.1) by (nonlinear_arith)
            requires
                s == i * dim.1 + j,
                1 <= i < dim.0,
                1 <= j < dim.1,
        ;
        assert(adj[6 * s + e] is None);
        let y = choose|y: int|
            #[trigger] is_link(starts, l, y) && ((verts[y] == a && verts[y + 1] == b) || (verts[y]
                == b && verts[y + 1] == a));
        assert(is_link(c2, l, y));
    }
    assert forall|c: int| 0 <= c < c2.len() - 1 implies #[trigger] c2[c] + 2 <= c2[c + 1] by {
        if c < starts.len() - 1 {
            assert(starts[c] + 2 <= starts[c + 1]);
        }
    }
}

/// Where component `c` ends, in a vertex buffer of length `n` with component starts `starts`.
pub(crate) open spec fn comp_end(starts: Seq<usize>, n: int, c: int) -> int {
    if c + 1 < starts.len() {
        starts[c + 1] as int
    } else {
        n
    }
}

/// Every component started so far is closed or has both ends on the outer edge of the grid.
pub(crate) open spec fn whole_upto(dim: (usize, usize), verts: Seq<(usize, usize)>, starts: Seq<usize>) -> bool {
    forall|c: int|
        0 <= c < starts.len() ==> {
            let a = verts[#[trigger] starts[c] as int];
            let b = verts[comp_end(starts, verts.len() as int, c) - 1];
            a == b || (on_boundary(dim, a) && on_boundary(dim, b))
        }
}

/// What a finished walk from `e0` leaves: only `e0` may be a traced side whose dual is in the
/// map; a backward walk ends on the outer edge of the grid; a forward walk ends there or closes
/// at `e0`, and closes whenever the dual of `e0` has been traced.
#[verifier::opaque]
pub(crate) open spec fn walk_done(
    inside: Seq<bool>,
    dim: (usize, usize),
    adj: Seq<Option<usize>>,
    last: (usize, usize),
    e0: int,
    backward: bool,
) -> bool {
    &&& forall|k: int|
        consumed(inside, dim, adj, k) && #[trigger] live(adj, dual_key(dim.1 as int, k)) ==> k == e0
    &&& !backward ==> on_boundary(dim, last) || (last == side_nodes(dim.1 as int, e0 / 6, e0 % 6)
        && consumed(inside, dim, adj, dual_key(dim.1 as int, e0)))
    &&& backward ==> on_boundary(dim, last)
    &&& !backward ==> (consumed(inside, dim, adj, dual_key(dim.1 as int, e0)) ==> last == side_nodes(
        dim.1 as int,
        e0 / 6,
        e0 % 6,
    ))
}

/// A walk may start forward from a live key when no traced side has its dual in the map.
pub(crate) proof fn lemma_forward_ready(
    inside: Seq<bool>,
    dim: (usize, usize),
    adj: Seq<Option<usize>>,
    verts: Seq<(usize, usize)>,
    starts: Seq<usize>,
    st: int,
)
    requires
        trace_inv(inside, dim, adj, verts, starts),
        ends_closed(inside, dim, adj),
        live(adj, st),
    ensures
        walk_ends(inside, dim, adj, st, st, false, false),
{
    lemma_inv_map(inside, dim, adj, verts, starts);
    lemma_live_crossed(inside, dim, adj, st);
    let ij = lemma_key_square(dim, st);
    let nj = dim.1 as int;
    lemma_dual_key(nj, st);
    assert(!consumed(inside, dim, adj, dual_key(nj, st))) by {
        if consumed(inside, dim, adj, dual_key(nj, st)) {
            assert(live(adj, dual_key(nj, dual_key(nj, st))));
        }
    }
}

/// After a forward walk from `st`, a walk may start backward from the live dual of `st`.
pub(crate) proof fn lemma_backward_ready(
    inside: Seq<bool>,
    dim: (usize, usize),
    adj: Seq<Option<usize>>,
    verts: Seq<(usize, usize)>,
    starts: Seq<usize>,
    last: (usize, usize),
    st: int,
)
    requires
        trace_inv(inside, dim, adj, verts, starts),
        walk_done(inside, dim, adj, last, st, false),
        crossed_key(inside, dim, st),
        !live(adj, st),
        live(adj, dual_key(dim.1 as int, st)),
    ensures
        walk_ends(inside, dim, adj, st, dual_key(dim.1 as int, st), true, false),
        on_boundary(dim, last),
{
    reveal(walk_done);
    lemma_inv_map(inside, dim, adj, verts, starts);
    let nj = dim.1 as int;
    let ij = lemma_key_square(dim, st);
    lemma_dual_key(nj, st);
    lemma_live_crossed(inside, dim, adj, dual_key(nj, st));
}

/// After a component whose start `st` and its dual are both out of the map, no traced side has
/// its dual in the map.
pub(crate) proof fn lemma_component_closed(
    inside: Seq<bool>,
    dim: (usize, usize),
    adj: Seq<Option<usize>>,
    last: (usize, usize),
    st: int,
    backward: bool,
)
    requires
        walk_done(inside, dim, adj, last, st, backward),
        !live(adj, dual_key(dim.1 as int, st)),
    ensures
        ends_closed(inside, dim, adj),
{
    reveal(walk_done);
}

/// A forward walk that did not close, from a start whose dual is neither in the map nor traced,
/// started on the outer edge of the grid.
pub(crate) proof fn lemma_start_outer(
    inside: Seq<bool>,
    dim: (usize, usize),
    adj: Seq<Option<usize>>,
    last: (usize, usize),
    st: int,
)
    requires
        walk_done(inside, dim, adj, last, st, false),
        crossed_key(inside, dim, st),
        !live(adj, dual_key(dim.1 as int, st)),
    ensures
        last == side_nodes(dim.1 as int, st / 6, st % 6) || (on_boundary(dim, last) && on_boundary(
            dim,
            side_nodes(dim.1 as int, st / 6, st % 6),
        )),
{
    reveal(walk_done);
    let nj = dim.1 as int;
    let d = dual_key(nj, st);
    if last != side_nodes(nj, st / 6, st % 6) {
        assert(!consumed(inside, dim, adj, d));
        let ij = lemma_key_square(dim, st);
        if key_square(dim, d) {
            lemma_dual_crossed(inside, dim, st);
        }
        lemma_outer(dim, ij.0, ij.1, st);
        assert(is_square(dim, ij.0, ij.1) && 0 <= st % 6 < 6 && outer_side(dim, ij.0, ij.1, st % 6)
            && side_nodes(nj, st / 6, st % 6) == side_nodes(nj, square_at(nj, ij.0, ij.1), st % 6));
    }
}

/// Adding a whole component after the components so far keeps them all whole.
pub(crate) proof fn lemma_add_whole(
    dim: (usize, usize),
    v_old: Seq<(usize, usize)>,
    s_old: Seq<usize>,
    verts: Seq<(usize, usize)>,
    starts: Seq<usize>,
)
    requires
        whole_upto(dim, v_old, s_old),
        starts_closed(s_old, v_old.len() as int),
        starts == s_old.push(v_old.len() as usize),
        v_old.len() <= usize::MAX,
        verts.len() > v_old.len(),
        verts.take(v_old.len() as int) == v_old,
        ({
            let a = verts[v_old.len() as int];
            let z = verts.last();
            a == z || (on_boundary(dim, a) && on_boundary(dim, z))
        }),
    ensures
        whole_upto(dim, verts, starts),
{
    let b = v_old.len() as int;
    assert forall|c: int| 0 <= c < starts.len() implies {
        let a = verts[#[trigger] starts[c] as int];
        let z = verts[comp_end(starts, verts.len() as int, c) - 1];
        a == z || (on_boundary(dim, a) && on_boundary(dim, z))
    } by {
        if c < s_old.len() {
            assert(starts[c] == s_old[c]);
            assert(comp_end(starts, verts.len() as int, c) == comp_end(s_old, b, c));
            lemma_component_bounds(s_old, b, c);
            assert(verts[starts[c] as int] == v_old[s_old[c] as int]);
            assert(verts[comp_end(s_old, b, c) - 1] == v_old[comp_end(s_old, b, c) - 1]);
        } else {
            assert(starts[c] as int == b);
        }
    }
}

/// Traces the component that holds the live key code `start`: opens it with the crossing at
/// `start`, walks forward, and, when the curve did not close, reverses it and walks on from the
/// other side of `start`.
#[verifier::rlimit(60)]
pub(crate) fn trace_component(
    adj: &mut Vec<Option<usize>>,
    verts: &mut Vec<(usize, usize)>,
    starts: &mut Vec<usize>,
    inside: Ghost<Seq<bool>>,
    dim: (usize, usize),
    start: usize,
)
    requires
        trace_inv(inside@, dim, old(adj)@, old(verts)@, old(starts)@),
        starts_closed(old(starts)@, old(verts)@.len() as int),
        start < old(adj)@.len(),
        old(adj)@[start as int] is Some,
        old(verts)@.len() + live_count(old(adj)@) <= old(adj)@.len(),
        ends_closed(inside@, dim, old(adj)@),
        whole_upto(dim, old(verts)@, old(starts)@),
    ensures
        trace_inv(inside@, dim, final(adj)@, final(verts)@, final(starts)@),
        starts_closed(final(starts)@, final(verts)@.len() as int),
        final(adj)@.len() == old(adj)@.len(),
        forall|k: int| 0 <= k < old(adj)@.len() && old(adj)@[k] is None ==> (#[trigger] final(adj)@[k]) is None,
        live_count(final(adj)@) < live_count(old(adj)@),
        final(verts)@.len() + live_count(final(adj)@) <= final(adj)@.len(),
        live_count(final(adj)@) + 2 * (final(verts)@.len() - final(starts)@.len()) == live_count(
            old(adj)@,
        ) + 2 * (old(verts)@.len() - old(starts)@.len()),
        ends_closed(inside@, dim, final(adj)@),
        whole_upto(dim, final(verts)@, final(starts)@),
{
    let nj = dim.1;
    let b = verts.len();
    let ghost v_old = verts@;
    let ghost s_old = starts@;
    let ghost st = start as int;
    proof {
        lemma_inv_len(inside@, dim, adj@, verts@, starts@);
        lemma_inv_map(inside@, dim, adj@, verts@, starts@);
        lemma_trace_facts(inside@, dim, adj@, start as int);
        let other = adj@[start as int]->0 as int;
        lemma_live_remove(adj@, start as int);
        lemma_live_remove(adj@.update(start as int, None), other);
        assert(adj@.update(start as int, None)[other] is Some);
        lemma_live_crossed(inside@, dim, adj@, st);
        lemma_forward_ready(inside@, dim, adj@, verts@, starts@, st);
    }
    let len = adj.len() / 6;
    let v0 = crossing_nodes(nj, (start / 6, start % 6));
    proof {
        lemma_new_component(inside@, dim, adj@, verts@, starts@, v0);
    }
    starts.push(b);
    verts.push(v0);
    trace(adj, verts, starts, inside, dim, start, Ghost(st), Ghost(false));
    proof {
        assert(verts@[b as int] == v0) by {
            assert(verts@.take(b + 1)[b as int] == v0);
        }
        lemma_dual_key(nj as int, st);
    }
    let ghost v_fwd = verts@;
    let mut walked_back = false;
    match dual_code(nj, len, start) {
        None => {},
        Some(back) => {
            if adj[back].is_some() {
                walked_back = true;
                // fixes the length of `verts` as a usize for the proof below
                let n_verts = verts.len();
                proof {
                    lemma_reverse_keeps(inside@, dim, adj@, verts@, starts@);
                    lemma_dual_nodes(nj as int, start as int / 6, start as int % 6);
                    assert(back as int == dual_key(nj as int, st));
                    lemma_backward_ready(inside@, dim, adj@, verts@, starts@, verts@.last(), st);
                }
                reverse_tail(verts, b);
                proof {
                    assert(verts@[b as int] == v_fwd.last());
                    assert(verts@.last() == v_fwd[b as int]);
                }
                let ghost v_rev = verts@;
                trace(adj, verts, starts, inside, dim, back, Ghost(st), Ghost(true));
                proof {
                    assert(verts@[b as int] == v_rev[b as int]) by {
                        assert(verts@.take(v_rev.len() as int)[b as int] == v_rev[b as int]);
                    }
                    lemma_component_closed(inside@, dim, adj@, verts@.last(), st, true);
                    reveal(walk_done);
                }
            }
        },
    }
    proof {
        lemma_component_done(starts@, verts@.len() as int);
        if !walked_back {
            assert(!live(adj@, dual_key(nj as int, st)));
            lemma_component_closed(inside@, dim, adj@, verts@.last(), st, false);
            lemma_start_outer(inside@, dim, adj@, verts@.last(), st);
        }
        assert(verts@.take(b as int) =~= v_old) by {
            assert(verts@.take(b as int) =~= verts@.take(b + 1).take(b as int));
        }
        lemma_add_whole(dim, v_old, s_old, verts@, starts@);
    }
}

/// A finished component lies within the vertices that were there when it finished.
pub(crate) proof fn lemma_component_bounds(starts: Seq<usize>, n: int, c: int)
    requires
        starts_closed(starts, n),
        0 <= c < starts.len(),
    ensures
        0 <= starts[c] < comp_end(starts, n, c) <= n,
        starts[c] + 2 <= comp_end(starts, n, c),
{
    if c + 1 < starts.len() {
        assert(starts[c] + 2 <= starts[c + 1]);
        if c + 1 < starts.len() - 1 {
            lemma_starts_increasing(starts, c + 1, starts.len() - 1);
        }
    }
}

// Keys beyond the map: the dual of a key, and which keys stand for crossed sides.

/// The key code of the dual of the side with key code `k`.
pub(crate) open spec fn dual_key(nj: int, k: int) -> int {
    6 * dual_side(nj, k / 6, k % 6).0 + dual_side(nj, k / 6, k % 6).1
}

/// Key code `k` belongs to a square of the grid.
pub(crate) open spec fn key_square(dim: (usize, usize), k: int) -> bool {
    exists|i: int, j: int| is_square(dim, i, j) && k / 6 == #[trigger] square_at(dim.1 as int, i, j)
}

/// Key code `k` is in the map.
pub(crate) open spec fn live(adj: Seq<Option<usize>>, k: int) -> bool {
    0 <= k < adj.len() && adj[k] is Some
}

/// Key code `k` stands for a side of a square that the level set crosses.
pub(crate) open spec fn crossed_key(inside: Seq<bool>, dim: (usize, usize), k: int) -> bool {
    0 <= k && key_square(dim, k) && partner_side(inside, dim.1 as int, k / 6, k % 6) is Some
}

/// The key code of a square's side, with the square's coordinates.
pub(crate) proof fn lemma_key_square(dim: (usize, usize), k: int) -> (ij: (int, int))
    requires
        key_square(dim, k),
        0 <= k,
    ensures
        is_square(dim, ij.0, ij.1),
        k / 6 == square_at(dim.1 as int, ij.0, ij.1),
        k / 6 >= dim.1 + 1,
{
    let (i, j) = choose|i: int, j: int| is_square(dim, i, j) && k / 6 == #[trigger] square_at(dim.1 as int, i, j);
    assert(i * dim.1 + j >= dim.1 + 1) by (nonlinear_arith)
        requires
            i >= 1,
            j >= 1,
            dim.1 >= 0,
    ;
    (i, j)
}

/// The dual of the dual of a side is the side itself, and differs from it.
pub(crate) proof fn lemma_dual_key(nj: int, k: int)
    requires
        0 <= k,
        k / 6 >= nj + 1,
        nj >= 1,
    ensures
        dual_key(nj, k) >= 0,
        dual_key(nj, k) / 6 == dual_side(nj, k / 6, k % 6).0,
        dual_key(nj, k) % 6 == dual_side(nj, k / 6, k % 6).1,
        dual_key(nj, dual_key(nj, k)) == k,
        dual_key(nj, k) != k,
{
}

/// A side whose dual lies in no square of the grid is on the outer edge of the grid.
pub(crate) proof fn lemma_outer(dim: (usize, usize), i: int, j: int, k: int)
    requires
        is_square(dim, i, j),
        k / 6 == square_at(dim.1 as int, i, j),
        0 <= k,
        !key_square(dim, dual_key(dim.1 as int, k)),
    ensures
        outer_side(dim, i, j, k % 6),
{
    let nj = dim.1 as int;
    let e = k % 6;
    let s = k / 6;
    assert(s >= nj + 1) by (nonlinear_arith)
        requires
            s == i * nj + j,
            i >= 1,
            1 <= j < nj,
    ;
    lemma_dual_key(nj, k);
    let d = dual_key(nj, k);
    if e == 0 && i >= 2 {
        assert(square_at(nj, i - 1, j) == s - nj) by (nonlinear_arith)
            requires
                s == i * nj + j,
        ;
        assert(is_square(dim, i - 1, j) && d / 6 == square_at(nj, i - 1, j));
    } else if e == 5 && i + 1 < dim.0 {
        assert(square_at(nj, i + 1, j) == s + nj) by (nonlinear_arith)
            requires
                s == i * nj + j,
        ;
        assert(is_square(dim, i + 1, j) && d / 6 == square_at(nj, i + 1, j));
    } else if e == 1 && j + 1 < dim.1 {
        assert(is_square(dim, i, j + 1) && d / 6 == square_at(nj, i, j + 1));
    } else if e == 4 && j >= 2 {
        assert(is_square(dim, i, j - 1) && d / 6 == square_at(nj, i, j - 1));
    } else if e == 2 || e == 3 {
        assert(is_square(dim, i, j) && d / 6 == square_at(nj, i, j));
    }
}

/// The corner bits of a square's mask are the flags of its corner nodes.
pub(crate) proof fn lemma_mask_bits(inside: Seq<bool>, nj: int, s: int)
    ensures
        forall|v: int|
            0 <= v < 4 ==> #[trigger] corner_bit(square_mask(inside, nj, s), v) == inside[s
                - corner_offset(nj, v)],
        0 <= square_mask(inside, nj, s) < 16,
{
    let m = square_mask(inside, nj, s);
    assert(corner_bit(m, 0) == inside[s - nj - 1]);
    assert(corner_bit(m, 1) == inside[s - 1]);
    assert(corner_bit(m, 2) == inside[s - nj]);
    assert(corner_bit(m, 3) == inside[s]);
}

/// A side has a partner exactly when the level set crosses it, that is when the flags at its
/// two ends differ.
#[verifier::rlimit(50)]
pub(crate) proof fn lemma_partner_crossed(inside: Seq<bool>, nj: int, s: int, e: int)
    requires
        0 <= e < 6,
    ensures
        partner_side(inside, nj, s, e) is Some <==> inside[s - corner_offset(nj, side_corners(e).0)]
            != inside[s - corner_offset(nj, side_corners(e).1)],
{
    lemma_mask_bits(inside, nj, s);
    let m = square_mask(inside, nj, s);
    lemma_square_cases(m);
    let c = crossed_sides(m);
    let all = Seq::new(6, |x: int| x as usize);
    let pred = |x: usize| is_crossed(m, x as int);
    if is_crossed(m, e) {
        all.lemma_filter_contains(pred, e);
        let x = choose|x: int| 0 <= x < c.len() && c[x] == all[e];
        assert(c[x] == e as usize);
    }
    if partner_side(inside, nj, s, e) is Some {
        let x = if c.len() >= 2 && c[0] == e {
            0
        } else if c.len() >= 2 && c[1] == e {
            1
        } else if c.len() >= 4 && c[2] == e {
            2
        } else {
            3
        };
        all.lemma_filter_pred(pred, x);
    }
}

/// A side and its dual have the same ends.
pub(crate) proof fn lemma_dual_ends(nj: int, s: int, e: int)
    requires
        0 <= e < 6,
    ensures
        ({
            let d = dual_side(nj, s, e);
            &&& d.0 - corner_offset(nj, side_corners(d.1).0) == s - corner_offset(nj, side_corners(e).0)
            &&& d.0 - corner_offset(nj, side_corners(d.1).1) == s - corner_offset(nj, side_corners(e).1)
        }),
{
}

/// The dual of a crossed side, where it lies in a square of the grid, is crossed too.
pub(crate) proof fn lemma_dual_crossed(inside: Seq<bool>, dim: (usize, usize), k: int)
    requires
        crossed_key(inside, dim, k),
        key_square(dim, dual_key(dim.1 as int, k)),
    ensures
        crossed_key(inside, dim, dual_key(dim.1 as int, k)),
{
    let nj = dim.1 as int;
    let ij = lemma_key_square(dim, k);
    lemma_dual_key(nj, k);
    let d = dual_side(nj, k / 6, k % 6);
    lemma_partner_crossed(inside, nj, k / 6, k % 6);
    lemma_partner_crossed(inside, nj, d.0, d.1);
    lemma_dual_ends(nj, k / 6, k % 6);
}

/// Key code `k` stands for a crossed side whose segment has been traced.
pub(crate) open spec fn consumed(inside: Seq<bool>, dim: (usize, usize), adj: Seq<Option<usize>>, k: int) -> bool {
    crossed_key(inside, dim, k) && !live(adj, k)
}

/// No traced side has its dual still in the map: every component traced so far is whole.
pub(crate) open spec fn ends_closed(inside: Seq<bool>, dim: (usize, usize), adj: Seq<Option<usize>>) -> bool {
    forall|k: int|
        consumed(inside, dim, adj, k) && #[trigger] live(adj, dual_key(dim.1 as int, k)) ==> false
}

/// What a walk from key `e0` keeps about its open ends, while it stands at key `next`:
/// only `e0` and the side behind `next` may be traced sides whose dual is still in the map.
/// A forward walk starts at `e0`; a backward walk starts at the dual of `e0`.
pub(crate) open spec fn walk_ends(
    inside: Seq<bool>,
    dim: (usize, usize),
    adj: Seq<Option<usize>>,
    e0: int,
    next: int,
    backward: bool,
    stepped: bool,
) -> bool {
    let nj = dim.1 as int;
    &&& crossed_key(inside, dim, e0)
    &&& forall|k: int|
        consumed(inside, dim, adj, k) && #[trigger] live(adj, dual_key(nj, k)) ==> k == e0 || k
            == dual_key(nj, next)
    &&& next == e0 || !live(adj, dual_key(nj, next))
    &&& stepped ==> (consumed(inside, dim, adj, next) ==> next == e0)
    &&& stepped ==> consumed(inside, dim, adj, dual_key(nj, next))
    &&& !stepped ==> crossed_key(inside, dim, next)
    &&& !backward ==> (consumed(inside, dim, adj, dual_key(nj, e0)) ==> next == e0 && stepped)
    &&& !backward ==> next != dual_key(nj, e0)
    &&& !backward && !stepped ==> next == e0
    &&& (backward || stepped) ==> !live(adj, e0)
    &&& backward && !stepped ==> next == dual_key(nj, e0)
    &&& backward && stepped ==> !live(adj, dual_key(nj, e0)) && next != e0
}

/// A live key stands for a crossed side.
pub(crate) proof fn lemma_live_crossed(inside: Seq<bool>, dim: (usize, usize), adj: Seq<Option<usize>>, k: int)
    requires
        adj_sym(inside, dim, adj),
        adj_in_squares(dim, adj),
        live(adj, k),
    ensures
        crossed_key(inside, dim, k),
{
    reveal(adj_sym);
    reveal(adj_in_squares);
    assert(adj[k] is Some);
}

/// A side's partner is not the dual of the side: the partner lies in the same triangle, the
/// dual in another.
pub(crate) proof fn lemma_partner_not_dual(inside: Seq<bool>, nj: int, k: int, p: int)
    requires
        0 <= k,
        k / 6 >= nj + 1,
        nj >= 1,
        p / 6 == k / 6,
        0 <= p,
        partner_side(inside, nj, k / 6, k % 6) == Some((p % 6) as usize),
    ensures
        dual_key(nj, p) != k,
        p != k,
{
    lemma_partner_symmetric(inside, nj, k / 6, k % 6);
    let m = square_mask(inside, nj, k / 6);
    assert(0 <= m < 16) by {
        lemma_mask_bits(inside, nj, k / 6);
    }
    lemma_square_cases(m);
}

/// One step of a walk keeps `walk_ends`.
pub(crate) proof fn lemma_step_ends(
    inside: Seq<bool>,
    dim: (usize, usize),
    a1: Seq<Option<usize>>,
    e0: int,
    next: int,
    backward: bool,
    stepped: bool,
)
    requires
        a1.len() == 6 * (dim.0 * dim.1),
        a1.len() <= usize::MAX,
        adj_sym(inside, dim, a1),
        adj_in_squares(dim, a1),
        walk_ends(inside, dim, a1, e0, next, backward, stepped),
        live(a1, next),
    ensures
        ({
            let other = a1[next]->0 as int;
            let a2 = a1.update(next, None).update(other, None);
            walk_ends(inside, dim, a2, e0, dual_key(dim.1 as int, other), backward, true)
        }),
{
    let nj = dim.1 as int;
    lemma_trace_facts(inside, dim, a1, next);
    let o = a1[next]->0 as int;
    let a2 = a1.update(next, None).update(o, None);
    let n2 = dual_key(nj, o);
    lemma_live_crossed(inside, dim, a1, next);
    lemma_live_crossed(inside, dim, a1, o);
    assert(nj >= 1) by {
        let ij = lemma_key_square(dim, next);
    }
    lemma_dual_key(nj, next);
    lemma_dual_key(nj, o);
    let ij0 = lemma_key_square(dim, e0);
    lemma_dual_key(nj, e0);
    lemma_partner_not_dual(inside, nj, next, o);
    assert forall|k: int|
        consumed(inside, dim, a2, k) && #[trigger] live(a2, dual_key(nj, k)) implies k == e0 || k
            == dual_key(nj, n2) by {
        if k == next {
            if next != e0 {
                assert(!live(a1, dual_key(nj, next)));
            }
        } else if k == o {
        } else {
            assert(consumed(inside, dim, a1, k));
            assert(live(a1, dual_key(nj, k)));
            if k == dual_key(nj, next) {
                assert(dual_key(nj, k) == next);
            }
        }
    }
    if consumed(inside, dim, a2, n2) {
        assert(n2 != next && n2 != o);
        assert(consumed(inside, dim, a1, n2));
        assert(live(a1, dual_key(nj, n2)));
        if n2 == dual_key(nj, next) {
            assert(dual_key(nj, n2) == next);
        }
    }
    if !backward {
        let d = dual_key(nj, e0);
        if consumed(inside, dim, a2, d) {
            if d == o {
            } else {
                assert(d != next);
                assert(consumed(inside, dim, a1, d));
            }
        }
        if n2 == d {
            assert(o == e0);
        }
    } else {
        let d = dual_key(nj, e0);
        if n2 == e0 {
            assert(o == d);
        }
    }
}

/// Where a walk that took a step stops, its last crossing lies on the outer edge of the grid,
/// or a forward walk closed at `e0`; no traced side but `e0` has its dual in the map.
pub(crate) proof fn lemma_walk_end(
    inside: Seq<bool>,
    dim: (usize, usize),
    adj: Seq<Option<usize>>,
    e0: int,
    next: int,
    backward: bool,
    last: (usize, usize),
)
    requires
        walk_ends(inside, dim, adj, e0, next, backward, true),
        !live(adj, next),
        last == side_nodes(dim.1 as int, dual_key(dim.1 as int, next) / 6, dual_key(dim.1 as int, next) % 6),
    ensures
        forall|k: int|
            consumed(inside, dim, adj, k) && #[trigger] live(adj, dual_key(dim.1 as int, k)) ==> k == e0,
        !backward ==> on_boundary(dim, last) || (last == side_nodes(dim.1 as int, e0 / 6, e0 % 6)
            && consumed(inside, dim, adj, dual_key(dim.1 as int, e0))),
        backward ==> on_boundary(dim, last),
        !backward ==> (consumed(inside, dim, adj, dual_key(dim.1 as int, e0)) ==> last == side_nodes(
            dim.1 as int,
            e0 / 6,
            e0 % 6,
        )),
{
    let nj = dim.1 as int;
    let f = dual_key(nj, next);
    let ij = lemma_key_square(dim, f);
    assert(nj >= 2);
    lemma_dual_key(nj, f);
    assert(dual_key(nj, f) == next);
    assert forall|k: int|
        consumed(inside, dim, adj, k) && #[trigger] live(adj, dual_key(nj, k)) implies k == e0 by {
        if k == f {
            assert(live(adj, next));
        }
    }
    if consumed(inside, dim, adj, next) {
        assert(next == e0);
        let ij0 = lemma_key_square(dim, e0);
        lemma_dual_key(nj, e0);
        lemma_dual_nodes(nj, e0 / 6, e0 % 6);
    } else {
        if key_square(dim, next) {
            lemma_dual_crossed(inside, dim, f);
        }
        lemma_outer(dim, ij.0, ij.1, f);
        assert(is_square(dim, ij.0, ij.1) && 0 <= f % 6 < 6 && outer_side(dim, ij.0, ij.1, f % 6)
            && last == side_nodes(nj, square_at(nj, ij.0, ij.1), f % 6));
    }
}

/// Before anything is traced, no side is traced.
pub(crate) proof fn lemma_fresh_ends(inside: Seq<bool>, dim: (usize, usize), adj: Seq<Option<usize>>)
    requires
        trace_inv(inside, dim, adj, seq![], seq![]),
    ensures
        ends_closed(inside, dim, adj),
{
    reveal(trace_inv);
    reveal(adj_covers);
    let nj = dim.1 as int;
    assert forall|k: int|
        consumed(inside, dim, adj, k) && #[trigger] live(adj, dual_key(nj, k)) implies false by {
        let ij = lemma_key_square(dim, k);
        let s = square_at(nj, ij.0, ij.1);
        assert(partner_side(inside, nj, square_at(nj, ij.0, ij.1), k % 6) is Some);
        assert(k == 6 * s + k % 6);
        assert(0 <= s < dim.0 * dim.1) by (nonlinear_arith)
            requires
                s == ij.0 * nj + ij.1,
                1 <= ij.0 < dim.0,
                1 <= ij.1 < nj,
                nj == dim.1,
        ;
        assert(!has_link(seq![], seq![], side_nodes(nj, s, k % 6), side_nodes(
            nj,
            s,
            partner_side(inside, nj, s, k % 6)->0 as int,
        )));
    }
}

/// Closing the list of starts with the number of vertices keeps every component whole.
pub(crate) proof fn lemma_whole_done(dim: (usize, usize), verts: Seq<(usize, usize)>, starts: Seq<usize>)
    requires
        whole_upto(dim, verts, starts),
        verts.len() <= usize::MAX,
    ensures
        components_maximal(dim, verts, starts.push(verts.len() as usize)),
{
    let comps = starts.push(verts.len() as usize);
    assert forall|c: int| 0 <= c < comps.len() - 1 implies {
        let a = verts[#[trigger] comps[c] as int];
        let b = verts[comps[c + 1] - 1];
        a == b || (on_boundary(dim, a) && on_boundary(dim, b))
    } by {
        assert(comps[c] == starts[c]);
        assert(comps[c + 1] as int == comp_end(starts, verts.len() as int, c));
    }
}

} // verus!
