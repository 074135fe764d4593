use vstd::prelude::*;
use crate::grid::{ExtractError, shape_matches3};
use crate::tetrahedron::{count_inside, cut_edges, cut_faces, is_cut, lemma_cut_count, tetrahedron};

verus! {

/// The six orders in which a walk from a cube's lowest corner to its highest corner can take the
/// three axes. Walk `q` passes through the four corners of the cube's tetrahedron `q`; the six
/// tetrahedra fill the cube, and neighbouring cubes cut their shared face along the same
/// diagonal.
pub open spec fn axis_order(q: int) -> [usize; 3] {
    if q == 0 {
        [0usize, 1usize, 2usize]
    } else if q == 1 {
        [0usize, 2usize, 1usize]
    } else if q == 2 {
        [1usize, 0usize, 2usize]
    } else if q == 3 {
        [1usize, 2usize, 0usize]
    } else if q == 4 {
        [2usize, 0usize, 1usize]
    } else {
        [2usize, 1usize, 0usize]
    }
}

/// The distance between the linear indices of two nodes that differ by one along `axis`, in
/// a row-major grid of dimensions `dim`.
pub open spec fn stride(dim: (usize, usize, usize), axis: int) -> int {
    if axis == 0 {
        dim.1 * dim.2
    } else if axis == 1 {
        dim.2 as int
    } else {
        1
    }
}

/// Node `m` (0 to 3) of walk `q` from node `s`: `m` steps along the axes in order `q`.
pub open spec fn walk_node(dim: (usize, usize, usize), s: int, q: int, m: int) -> int {
    let p = axis_order(q);
    if m == 0 {
        s
    } else if m == 1 {
        s + stride(dim, p[0] as int)
    } else if m == 2 {
        s + stride(dim, p[0] as int) + stride(dim, p[1] as int)
    } else {
        s + stride(dim, p[0] as int) + stride(dim, p[1] as int) + stride(dim, p[2] as int)
    }
}

/// The step of walk `q` that goes along `axis`.
pub open spec fn step_along(q: int, axis: usize) -> int {
    let p = axis_order(q);
    if p[0] == axis {
        0
    } else if p[1] == axis {
        1
    } else {
        2
    }
}

/// Which corners of tetrahedron `(s, q)` lie inside.
pub open spec fn tet_inside(inside: Seq<bool>, dim: (usize, usize, usize), s: int, q: int) -> [bool; 4] {
    [
        inside[walk_node(dim, s, q, 0)],
        inside[walk_node(dim, s, q, 1)],
        inside[walk_node(dim, s, q, 2)],
        inside[walk_node(dim, s, q, 3)],
    ]
}

/// The grid edge along which walk `q` from `s` crosses `axis`, as (from node, to node).
pub open spec fn axis_edge(dim: (usize, usize, usize), s: int, q: int, axis: usize) -> (usize, usize) {
    (
        walk_node(dim, s, q, step_along(q, axis)) as usize,
        walk_node(dim, s, q, step_along(q, axis) + 1) as usize,
    )
}

/// The flat normal of tetrahedron `(s, q)`: its component along each axis is the difference of
/// the samples at the ends of the tetrahedron's edge along that axis, (to) minus (from).
pub open spec fn tet_normal(dim: (usize, usize, usize), s: int, q: int) -> [(usize, usize); 3] {
    [axis_edge(dim, s, q, 0), axis_edge(dim, s, q, 1), axis_edge(dim, s, q, 2)]
}

/// The grid segment, as (outside node, inside node), that holds the crossing of tetrahedron
/// `(s, q)` along its edge `e`.
pub open spec fn cut_vertex(dim: (usize, usize, usize), s: int, q: int, e: (usize, usize)) -> (usize, usize) {
    (walk_node(dim, s, q, e.0 as int) as usize, walk_node(dim, s, q, e.1 as int) as usize)
}

/// A triangle's vertex indices moved past the `b` vertices already in a mesh.
pub open spec fn shift_face(f: [u32; 3], b: int) -> [u32; 3] {
    [(f[0] + b) as u32, (f[1] + b) as u32, (f[2] + b) as u32]
}

/// The mathematical content of a [`SurfaceMesh`].
pub struct SurfaceModel {
    pub verts: Seq<(usize, usize)>,
    pub faces: Seq<[u32; 3]>,
    pub normals: Seq<[(usize, usize); 3]>,
}

pub open spec fn empty_model() -> SurfaceModel {
    SurfaceModel { verts: seq![], faces: seq![], normals: seq![] }
}

/// Appends to `m` the cut of tetrahedron `t = (s, q)`: its vertices, its faces renumbered past
/// the vertices already in `m`, and one copy of its normal per vertex.
pub open spec fn add_tetrahedron(
    m: SurfaceModel,
    inside: Seq<bool>,
    dim: (usize, usize, usize),
    t: (int, int),
) -> SurfaceModel {
    let cut = cut_edges(tet_inside(inside, dim, t.0, t.1));
    let b = m.verts.len() as int;
    SurfaceModel {
        verts: m.verts + cut.map_values(|e: (usize, usize)| cut_vertex(dim, t.0, t.1, e)),
        faces: m.faces + cut_faces(cut.len()).map_values(|f: [u32; 3]| shift_face(f, b)),
        normals: m.normals + Seq::new(cut.len(), |k: int| tet_normal(dim, t.0, t.1)),
    }
}

/// The mesh made of the cuts of tetrahedra `tets`, in order.
pub open spec fn assemble(inside: Seq<bool>, dim: (usize, usize, usize), tets: Seq<(int, int)>) -> SurfaceModel
    decreases tets.len(),
{
    if tets.len() == 0 {
        empty_model()
    } else {
        add_tetrahedron(assemble(inside, dim, tets.drop_last()), inside, dim, tets.last())
    }
}

/// The linear index of the lowest corner of the cell whose highest corner is node `(i, j, k)`.
pub open spec fn cell_base(dim: (usize, usize, usize), i: int, j: int, k: int) -> int {
    (i - 1) * (dim.1 * dim.2) + (j - 1) * dim.2 + (k - 1)
}

/// The six tetrahedra of the cell whose highest corner is node `(i, j, k)`.
pub open spec fn cell_tets(dim: (usize, usize, usize), i: int, j: int, k: int) -> Seq<(int, int)> {
    Seq::new(6, |q: int| (cell_base(dim, i, j, k), q))
}

/// The tetrahedra of the cells `(i, j, 1..k)`, in order.
pub open spec fn row_tets(dim: (usize, usize, usize), i: int, j: int, k: int) -> Seq<(int, int)>
    decreases k,
{
    if k <= 1 {
        seq![]
    } else {
        row_tets(dim, i, j, k - 1) + cell_tets(dim, i, j, k - 1)
    }
}

/// The tetrahedra of the cells `(i, 1..j, _)`, in row-major order.
pub open spec fn plane_tets(dim: (usize, usize, usize), i: int, j: int) -> Seq<(int, int)>
    decreases j,
{
    if j <= 1 {
        seq![]
    } else {
        plane_tets(dim, i, j - 1) + row_tets(dim, i, j - 1, dim.2 as int)
    }
}

/// The tetrahedra of the cells `(1..i, _, _)`, in row-major order.
pub open spec fn grid_tets(dim: (usize, usize, usize), i: int) -> Seq<(int, int)>
    decreases i,
{
    if i <= 1 {
        seq![]
    } else {
        grid_tets(dim, i - 1) + plane_tets(dim, i - 1, dim.1 as int)
    }
}

/// The level set of a 3D grid whose node `n` lies inside exactly when `inside[n]`: every cell in
/// row-major order, every one of its six tetrahedra in order, cut by [`tetrahedron`].
pub open spec fn surface(inside: Seq<bool>, dim: (usize, usize, usize)) -> SurfaceModel {
    assemble(inside, dim, grid_tets(dim, dim.0 as int))
}

/// Every face indexes vertices of the mesh, and every vertex has its normal.
pub open spec fn well_formed(m: SurfaceModel) -> bool {
    &&& m.normals.len() == m.verts.len()
    &&& forall|f: int, c: int|
        0 <= f < m.faces.len() && 0 <= c < 3 ==> (#[trigger] m.faces[f][c] as int) < m.verts.len()
}

/// A triangle mesh of the level set of a grid field.
///
/// Vertex `v` lies on the grid segment from node `verts[v].0`, outside the level set, to node
/// `verts[v].1`, inside it. `faces` hold three vertex indices each. `normals[v]` is the flat
/// normal of the tetrahedron that made vertex `v`: its component along axis `t` is the sample at
/// node `normals[v][t].1` minus the sample at node `normals[v][t].0`.
pub struct SurfaceMesh {
    pub verts: Vec<(usize, usize)>,
    pub faces: Vec<[u32; 3]>,
    pub normals: Vec<[(usize, usize); 3]>,
}

impl View for SurfaceMesh {
    type V = SurfaceModel;

    open spec fn view(&self) -> SurfaceModel {
        SurfaceModel { verts: self.verts@, faces: self.faces@, normals: self.normals@ }
    }
}

/// Each axis order is a permutation of the three axes.
pub proof fn lemma_axis_order(q: int)
    ensures
        axis_order(q)[0] < 3,
        axis_order(q)[1] < 3,
        axis_order(q)[2] < 3,
        axis_order(q)[0] != axis_order(q)[1],
        axis_order(q)[0] != axis_order(q)[2],
        axis_order(q)[1] != axis_order(q)[2],
{
}

fn axis_order_exec(q: usize) -> (r: [usize; 3])
    requires
        q < 6,
    ensures
        r == axis_order(q as int),
{
    if q == 0 {
        [0, 1, 2]
    } else if q == 1 {
        [0, 2, 1]
    } else if q == 2 {
        [1, 0, 2]
    } else if q == 3 {
        [1, 2, 0]
    } else if q == 4 {
        [2, 0, 1]
    } else {
        [2, 1, 0]
    }
}

fn stride_exec(njnk: usize, nk: usize, axis: usize) -> (r: usize)
    ensures
        r == (if axis == 0 {
            njnk as int
        } else if axis == 1 {
            nk as int
        } else {
            1
        }),
{
    if axis == 0 {
        njnk
    } else if axis == 1 {
        nk
    } else {
        1
    }
}

fn step_along_exec(p: [usize; 3], axis: usize) -> (r: usize)
    ensures
        r == (if p[0] == axis {
            0int
        } else if p[1] == axis {
            1int
        } else {
            2int
        }),
{
    if p[0] == axis {
        0
    } else if p[1] == axis {
        1
    } else {
        2
    }
}

/// Appends the cut of tetrahedron `(s, q)` to `mesh`.
fn add_tetrahedron_exec(
    mesh: &mut SurfaceMesh,
    inside: &[bool],
    dim: (usize, usize, usize),
    njnk: usize,
    s: usize,
    q: usize,
) -> (fits: bool)
    requires
        q < 6,
        njnk == dim.1 * dim.2,
        s + njnk + dim.2 + 1 < inside@.len(),
        old(mesh).verts@.len() <= u32::MAX,
        well_formed(old(mesh)@),
    ensures
        fits ==> final(mesh)@ == add_tetrahedron(old(mesh)@, inside@, dim, (s as int, q as int)),
        fits ==> final(mesh).verts@.len() <= u32::MAX,
        !fits ==> final(mesh)@ == old(mesh)@ && add_tetrahedron(old(mesh)@, inside@, dim, (s as int, q as int)).verts.len() > u32::MAX,
        well_formed(final(mesh)@),
{
    let p = axis_order_exec(q);
    proof {
        lemma_axis_order(q as int);
    }
    assert(stride(dim, p[0] as int) + stride(dim, p[1] as int) + stride(dim, p[2] as int) == njnk
        + dim.2 + 1);
    let len = inside.len();
    let w0 = s;
    let w1 = w0 + stride_exec(njnk, dim.2, p[0]);
    let w2 = w1 + stride_exec(njnk, dim.2, p[1]);
    let w3 = w2 + stride_exec(njnk, dim.2, p[2]);
    let w: [usize; 4] = [w0, w1, w2, w3];
    assert(forall|m: int| 0 <= m < 4 ==> w[m] == walk_node(dim, s as int, q as int, m));
    let ins: [bool; 4] = [inside[w0], inside[w1], inside[w2], inside[w3]];
    assert(ins == tet_inside(inside@, dim, s as int, q as int));
    let cut = tetrahedron(ins);
    proof {
        let c = count_inside(ins);
        assert(c == 0 || c == 1 || c == 2 || c == 3 || c == 4);
        assert(c * (4 - c) == 0 || c * (4 - c) == 3 || c * (4 - c) == 4) by (nonlinear_arith)
            requires
                c == 0 || c == 1 || c == 2 || c == 3 || c == 4,
        ;
    }
    let a0 = step_along_exec(p, 0);
    let a1 = step_along_exec(p, 1);
    let a2 = step_along_exec(p, 2);
    let n: [(usize, usize); 3] = [(w[a0], w[a0 + 1]), (w[a1], w[a1 + 1]), (w[a2], w[a2 + 1])];
    assert(n == tet_normal(dim, s as int, q as int));
    let ghost m0 = mesh@;
    let b = mesh.verts.len();
    if cut.edges.len() > (u32::MAX as usize) - b {
        return false;
    }
    let mut x: usize = 0;
    while x < cut.edges.len()
        invariant
            x <= cut.edges@.len(),
            cut.edges@ == cut_edges(ins),
            forall|m: int| 0 <= m < 4 ==> w[m] == walk_node(dim, s as int, q as int, m),
            mesh.verts@ == m0.verts + cut.edges@.take(x as int).map_values(|e: (usize, usize)| cut_vertex(dim, s as int, q as int, e)),
            mesh.normals@ == m0.normals + Seq::new(x as nat, |k: int| tet_normal(dim, s as int, q as int)),
            mesh.faces@ == m0.faces,
            well_formed(m0),
            n == tet_normal(dim, s as int, q as int),
        decreases cut.edges@.len() - x,
    {
        let (o, i) = cut.edges[x];
        assert(is_cut(ins, cut.edges@[x as int]));
        assert(cut_vertex(dim, s as int, q as int, (o, i)) == (w[o as int], w[i as int]));
        mesh.verts.push((w[o], w[i]));
        mesh.normals.push(n);
        proof {
            assert(cut.edges@.take(x + 1) =~= cut.edges@.take(x as int).push(cut.edges@[x as int]));
            assert(mesh.verts@ =~= m0.verts + cut.edges@.take(x + 1).map_values(|e: (usize, usize)| cut_vertex(dim, s as int, q as int, e)));
            assert(mesh.normals@ =~= m0.normals + Seq::new((x + 1) as nat, |k: int| tet_normal(dim, s as int, q as int)));
        }
        x = x + 1;
    }
    proof {
        assert(cut.edges@.take(x as int) =~= cut.edges@);
    }
    let b32 = b as u32;
    let mut y: usize = 0;
    while y < cut.faces.len()
        invariant
            y <= cut.faces@.len(),
            cut.faces@ == cut_faces(cut.edges@.len()),
            cut.edges@.len() <= 4,
            b32 == b,
            b + cut.edges@.len() <= u32::MAX,
            b == m0.verts.len(),
            mesh.verts@ == m0.verts + cut.edges@.map_values(|e: (usize, usize)| cut_vertex(dim, s as int, q as int, e)),
            mesh.normals@ == m0.normals + Seq::new(cut.edges@.len(), |k: int| tet_normal(dim, s as int, q as int)),
            mesh.faces@ == m0.faces + cut.faces@.take(y as int).map_values(|f: [u32; 3]| shift_face(f, b as int)),
            well_formed(m0),
            cut.edges@.len() == 0 || cut.edges@.len() == 3 || cut.edges@.len() == 4,
            forall|f: int, c: int|
                0 <= f < mesh.faces@.len() && 0 <= c < 3 ==> (#[trigger] mesh.faces@[f][c] as int) < mesh.verts@.len(),
        decreases cut.faces@.len() - y,
    {
        let f = cut.faces[y];
        assert(f[0] < cut.edges@.len() && f[1] < cut.edges@.len() && f[2] < cut.edges@.len());
        mesh.faces.push([f[0] + b32, f[1] + b32, f[2] + b32]);
        proof {
            assert(cut.faces@.take(y + 1) =~= cut.faces@.take(y as int).push(f));
            assert(mesh.faces@ =~= m0.faces + cut.faces@.take(y + 1).map_values(|f: [u32; 3]| shift_face(f, b as int)));
        }
        y = y + 1;
    }
    proof {
        assert(cut.faces@.take(y as int) =~= cut.faces@);
        assert(mesh@ =~= add_tetrahedron(m0, inside@, dim, (s as int, q as int)));
    }
    true
}

/// Extracts the level set of a 3D grid field by marching tetrahedra.
///
/// `inside[n]` tells whether the sample at node `n` is at or above the level; nodes are numbered
/// in row-major order, node `(i, j, k)` having index `i * nj * nk + j * nk + k` for
/// `dim = (ni, nj, nk)`. Each cell of eight nodes whose corners do not all lie on one side is cut
/// into six tetrahedra, each of which is cut by [`tetrahedron`]; a cell whose corners all lie
/// on one side adds nothing. A grid with fewer than two nodes along some axis has no cell and
/// gives an empty mesh.
///
/// Fails with `ShapeMismatch` exactly when `inside` does not hold one flag per node, and
/// otherwise with `TooManyVertices` exactly when the mesh has more vertices than its `u32` face
/// indices can number.
pub fn marching_tetrahedra(inside: &[bool], dim: (usize, usize, usize)) -> (r: Result<SurfaceMesh, ExtractError>)
    ensures
        r matches Err(ExtractError::ShapeMismatch) <==> inside@.len() != dim.0 * dim.1 * dim.2,
        r matches Err(ExtractError::TooManyVertices) <==> inside@.len() == dim.0 * dim.1 * dim.2
            && surface(inside@, dim).verts.len() > u32::MAX,
        r matches Ok(m) ==> m@ == surface(inside@, dim) && well_formed(m@),
{
    let (ni, nj, nk) = dim;
    if !shape_matches3(inside.len(), dim) {
        return Err(ExtractError::ShapeMismatch);
    }
    let mut mesh = SurfaceMesh { verts: Vec::new(), faces: Vec::new(), normals: Vec::new() };
    if ni == 0 {
        return Ok(mesh);
    }
    let len = inside.len();
    proof {
        assert(nj * nk <= ni * (nj * nk)) by (nonlinear_arith)
            requires
                ni >= 1,
        ;
        assert(ni * (nj * nk) == ni * nj * nk) by (nonlinear_arith);
    }
    let njnk = nj * nk;
    let mut i: usize = 1;
    let mut si: usize = 0;
    while i < ni
        invariant
            1 <= i <= ni,
            len == inside@.len(),
            len == ni * njnk,
            njnk == nj * nk,
            si == (i - 1) * njnk,
            inside@.len() == dim.0 * dim.1 * dim.2,
            mesh.verts@.len() <= u32::MAX,
            well_formed(mesh@),
            mesh@ == assemble(inside@, dim, grid_tets(dim, i as int)),
            dim == (ni, nj, nk),
        decreases ni - i,
    {
        proof {
            assert(si + 2 * njnk <= len) by (nonlinear_arith)
                requires
                    si == (i - 1) * njnk,
                    i + 1 <= ni,
                    len == ni * njnk,
            ;
        }
        let mut j: usize = 1;
        let mut sij: usize = si;
        while j < nj
            invariant
                1 <= i < ni,
                1 <= j,
                j <= nj || j == 1,
                len == inside@.len(),
                njnk == nj * nk,
                si + 2 * njnk <= len,
                sij == si + (j - 1) * nk,
                si == (i - 1) * njnk,
                inside@.len() == dim.0 * dim.1 * dim.2,
                mesh.verts@.len() <= u32::MAX,
                well_formed(mesh@),
                mesh@ == assemble(inside@, dim, grid_tets(dim, i as int) + plane_tets(dim, i as int, j as int)),
                dim == (ni, nj, nk),
            decreases nj - j,
        {
            proof {
                assert(sij + 2 * nk <= si + njnk) by (nonlinear_arith)
                    requires
                        sij == si + (j - 1) * nk,
                        j + 1 <= nj,
                        njnk == nj * nk,
                ;
            }
            let ghost before_row = grid_tets(dim, i as int) + plane_tets(dim, i as int, j as int);
            let mut k: usize = 1;
            while k < nk
                invariant
                    1 <= i < ni,
                    1 <= j < nj,
                    1 <= k,
                    k <= nk || k == 1,
                    len == inside@.len(),
                    njnk == nj * nk,
                    si + 2 * njnk <= len,
                    sij + 2 * nk <= si + njnk,
                    sij == si + (j - 1) * nk,
                    si == (i - 1) * njnk,
                    inside@.len() == dim.0 * dim.1 * dim.2,
                    mesh.verts@.len() <= u32::MAX,
                    well_formed(mesh@),
                    mesh@ == assemble(inside@, dim, before_row + row_tets(dim, i as int, j as int, k as int)),
                    before_row == grid_tets(dim, i as int) + plane_tets(dim, i as int, j as int),
                    dim == (ni, nj, nk),
                decreases nk - k,
            {
                let s = sij + k - 1;
                let ghost done = before_row + row_tets(dim, i as int, j as int, k as int);
                let ghost cell = cell_tets(dim, i as int, j as int, k as int);
                assert(s == cell_base(dim, i as int, j as int, k as int));
                let c = inside[s];
                let uniform = inside[s + 1] == c && inside[s + nk] == c && inside[s + nk + 1] == c
                    && inside[s + njnk] == c && inside[s + njnk + 1] == c && inside[s + njnk + nk] == c
                    && inside[s + njnk + nk + 1] == c;
                if uniform {
                    proof {
                        lemma_uniform_cell_prefix(inside@, dim, done, i as int, j as int, k as int, 6);
                    }
                } else {
                    let mut q: usize = 0;
                    while q < 6
                        invariant
                            q <= 6,
                            len == inside@.len(),
                            njnk == nj * nk,
                            s + njnk + nk + 1 < len,
                            inside@.len() == dim.0 * dim.1 * dim.2,
                            mesh.verts@.len() <= u32::MAX,
                            1 <= i < ni && 1 <= j < nj && 1 <= k < nk,
                            done == before_row + row_tets(dim, i as int, j as int, k as int),
                            before_row == grid_tets(dim, i as int) + plane_tets(dim, i as int, j as int),
                            well_formed(mesh@),
                            mesh@ == assemble(inside@, dim, done + cell.take(q as int)),
                            cell == cell_tets(dim, i as int, j as int, k as int),
                            s == cell_base(dim, i as int, j as int, k as int),
                            dim == (ni, nj, nk),
                        decreases 6 - q,
                    {
                        proof {
                            assert(done + cell.take(q + 1) =~= (done + cell.take(q as int)).push(cell[q as int]));
                            lemma_assemble_push(inside@, dim, done + cell.take(q as int), cell[q as int]);
                        }
                        if !add_tetrahedron_exec(&mut mesh, inside, dim, njnk, s, q) {
                            proof {
                                let rest = lemma_cell_prefix(dim, i as int, j as int, k as int, q as int);
                                assert(grid_tets(dim, ni as int) =~= (done + cell.take(q + 1)) + rest);
                                lemma_assemble_grows(inside@, dim, done + cell.take(q + 1), rest);
                            }
                            return Err(ExtractError::TooManyVertices);
                        }
                        q = q + 1;
                    }
                }
                proof {
                    assert(cell.take(6) =~= cell);
                    assert(row_tets(dim, i as int, j as int, k + 1) == row_tets(dim, i as int, j as int, k as int) + cell);
                    assert(done + cell =~= before_row + row_tets(dim, i as int, j as int, k + 1));
                }
                k = k + 1;
            }
            proof {
                assert(row_tets(dim, i as int, j as int, k as int) == row_tets(dim, i as int, j as int, nk as int));
                assert(plane_tets(dim, i as int, j + 1) == plane_tets(dim, i as int, j as int) + row_tets(dim, i as int, j as int, nk as int));
                assert(before_row + row_tets(dim, i as int, j as int, k as int) =~= grid_tets(dim, i as int) + plane_tets(dim, i as int, j + 1));
                assert(sij + nk == si + j * nk) by (nonlinear_arith)
                    requires
                        sij == si + (j - 1) * nk,
                ;
            }
            sij = sij + nk;
            j = j + 1;
        }
        proof {
            assert(plane_tets(dim, i as int, j as int) == plane_tets(dim, i as int, nj as int));
            assert(grid_tets(dim, i + 1) == grid_tets(dim, i as int) + plane_tets(dim, i as int, nj as int));
            assert(sij <= si + njnk) by (nonlinear_arith)
                requires
                    sij == si + (j - 1) * nk,
                    j <= nj || j == 1,
                    njnk == nj * nk,
            ;
            assert(si + njnk == i * njnk) by (nonlinear_arith)
                requires
                    si == (i - 1) * njnk,
            ;
        }
        si = si + njnk;
        i = i + 1;
    }
    Ok(mesh)
}

/// The triangles of a mesh, each given by the grid segments that hold its three vertices.
pub open spec fn triangles_of(m: SurfaceModel) -> Seq<[(usize, usize); 3]> {
    m.faces.map_values(
        |f: [u32; 3]| [m.verts[f[0] as int], m.verts[f[1] as int], m.verts[f[2] as int]],
    )
}

/// The triangles of the cut of tetrahedron `t = (s, q)`, each given by the grid segments that
/// hold its three vertices.
pub open spec fn tet_triangles(inside: Seq<bool>, dim: (usize, usize, usize), t: (int, int)) -> Seq<[(usize, usize); 3]> {
    let cut = cut_edges(tet_inside(inside, dim, t.0, t.1));
    cut_faces(cut.len()).map_values(
        |f: [u32; 3]|
            [
                cut_vertex(dim, t.0, t.1, cut[f[0] as int]),
                cut_vertex(dim, t.0, t.1, cut[f[1] as int]),
                cut_vertex(dim, t.0, t.1, cut[f[2] as int]),
            ],
    )
}

/// The triangles of the cuts of tetrahedra `tets`, in order.
pub open spec fn assemble_triangles(inside: Seq<bool>, dim: (usize, usize, usize), tets: Seq<(int, int)>) -> Seq<[(usize, usize); 3]>
    decreases tets.len(),
{
    if tets.len() == 0 {
        seq![]
    } else {
        assemble_triangles(inside, dim, tets.drop_last()) + tet_triangles(inside, dim, tets.last())
    }
}

/// The triangles of the level set of a 3D grid, in the order of [`surface`]'s faces.
pub open spec fn surface_triangles(inside: Seq<bool>, dim: (usize, usize, usize)) -> Seq<[(usize, usize); 3]> {
    assemble_triangles(inside, dim, grid_tets(dim, dim.0 as int))
}

/// While the vertex count fits the `u32` face indices, the faces of an assembled mesh index its
/// vertices and, resolved through them, are the assembled triangles.
#[verifier::rlimit(60)]
pub proof fn lemma_triangles_of_assemble(inside: Seq<bool>, dim: (usize, usize, usize), tets: Seq<(int, int)>)
    requires
        assemble(inside, dim, tets).verts.len() <= u32::MAX,
    ensures
        well_formed(assemble(inside, dim, tets)),
        triangles_of(assemble(inside, dim, tets)) == assemble_triangles(inside, dim, tets),
    decreases tets.len(),
{
    let m = assemble(inside, dim, tets);
    if tets.len() == 0 {
        assert(triangles_of(m) =~= Seq::<[(usize, usize); 3]>::empty());
    } else {
        let x = tets.drop_last();
        let t = tets.last();
        let mx = assemble(inside, dim, x);
        lemma_triangles_of_assemble(inside, dim, x);
        let ins = tet_inside(inside, dim, t.0, t.1);
        let cut = cut_edges(ins);
        lemma_cut_count(ins);
        let c = count_inside(ins);
        assert(c == 0 || c == 1 || c == 2 || c == 3 || c == 4);
        assert(c * (4 - c) == 0 || c * (4 - c) == 3 || c * (4 - c) == 4) by (nonlinear_arith)
            requires
                c == 0 || c == 1 || c == 2 || c == 3 || c == 4,
        ;
        let b = mx.verts.len() as int;
        let tt = tet_triangles(inside, dim, t);
        let nf = cut_faces(cut.len());
        assert(m.faces.len() == mx.faces.len() + nf.len());
        assert forall|f: int, k: int| 0 <= f < m.faces.len() && 0 <= k < 3 implies (#[trigger] m.faces[f][k]
            as int) < m.verts.len() by {
            if f >= mx.faces.len() {
                assert(m.faces[f] == shift_face(nf[f - mx.faces.len()], b));
            } else {
                assert(m.faces[f] == mx.faces[f]);
            }
        }
        let tm = triangles_of(m);
        let want = assemble_triangles(inside, dim, x) + tt;
        assert(tm.len() == want.len());
        assert forall|f: int| 0 <= f < tm.len() implies #[trigger] tm[f] == want[f] by {
            if f >= mx.faces.len() {
                let g = nf[f - mx.faces.len()];
                assert(m.faces[f] == shift_face(g, b));
                assert forall|k: int| 0 <= k < 3 implies #[trigger] m.verts[m.faces[f][k] as int]
                    == cut_vertex(dim, t.0, t.1, cut[g[k] as int]) by {
                    assert(m.faces[f][k] as int == g[k] + b);
                }
                assert(tm[f] =~= tt[f - mx.faces.len()]);
            } else {
                assert(m.faces[f] == mx.faces[f]);
                assert forall|k: int| 0 <= k < 3 implies #[trigger] m.verts[m.faces[f][k] as int]
                    == mx.verts[mx.faces[f][k] as int] by {
                    assert((mx.faces[f][k] as int) < mx.verts.len());
                }
                assert(tm[f] =~= triangles_of(mx)[f]);
            }
        }
        assert(tm =~= want);
    }
}

/// Appends the triangles of tetrahedron `(s, q)` to `tris`.
fn add_tetrahedron_triangles(
    tris: &mut Vec<[(usize, usize); 3]>,
    inside: &[bool],
    dim: (usize, usize, usize),
    njnk: usize,
    s: usize,
    q: usize,
)
    requires
        q < 6,
        njnk == dim.1 * dim.2,
        s + njnk + dim.2 + 1 < inside@.len(),
    ensures
        final(tris)@ == old(tris)@ + tet_triangles(inside@, dim, (s as int, q as int)),
{
    let p = axis_order_exec(q);
    proof {
        lemma_axis_order(q as int);
    }
    assert(stride(dim, p[0] as int) + stride(dim, p[1] as int) + stride(dim, p[2] as int) == njnk
        + dim.2 + 1);
    // fixes the length of `inside` as a usize for the sums below
    let len = inside.len();
    let w0 = s;
    let w1 = w0 + stride_exec(njnk, dim.2, p[0]);
    let w2 = w1 + stride_exec(njnk, dim.2, p[1]);
    let w3 = w2 + stride_exec(njnk, dim.2, p[2]);
    let w: [usize; 4] = [w0, w1, w2, w3];
    assert(forall|m: int| 0 <= m < 4 ==> w[m] == walk_node(dim, s as int, q as int, m));
    let ins: [bool; 4] = [inside[w0], inside[w1], inside[w2], inside[w3]];
    assert(ins == tet_inside(inside@, dim, s as int, q as int));
    let cut = tetrahedron(ins);
    let ghost t0 = tris@;
    let ghost tt = tet_triangles(inside@, dim, (s as int, q as int));
    let mut y: usize = 0;
    while y < cut.faces.len()
        invariant
            y <= cut.faces@.len(),
            cut.faces@ == cut_faces(cut.edges@.len()),
            cut.edges@ == cut_edges(ins),
            ins == tet_inside(inside@, dim, s as int, q as int),
            forall|k: int| 0 <= k < cut.edges@.len() ==> is_cut(ins, #[trigger] cut.edges@[k]),
            forall|m: int| 0 <= m < 4 ==> w[m] == walk_node(dim, s as int, q as int, m),
            tt == tet_triangles(inside@, dim, (s as int, q as int)),
            tris@ == t0 + tt.take(y as int),
        decreases cut.faces@.len() - y,
    {
        let f = cut.faces[y];
        assert(f[0] < cut.edges@.len() && f[1] < cut.edges@.len() && f[2] < cut.edges@.len());
        let e0 = cut.edges[f[0] as usize];
        let e1 = cut.edges[f[1] as usize];
        let e2 = cut.edges[f[2] as usize];
        assert(is_cut(ins, e0) && is_cut(ins, e1) && is_cut(ins, e2));
        tris.push([(w[e0.0], w[e0.1]), (w[e1.0], w[e1.1]), (w[e2.0], w[e2.1])]);
        proof {
            assert(tt[y as int] == [
                cut_vertex(dim, s as int, q as int, e0),
                cut_vertex(dim, s as int, q as int, e1),
                cut_vertex(dim, s as int, q as int, e2),
            ]);
            assert(tris@ =~= t0 + tt.take(y + 1));
        }
        y = y + 1;
    }
    proof {
        assert(tt.take(y as int) =~= tt);
    }
}

/// Appending one tetrahedron to a sequence appends its triangles.
proof fn lemma_assemble_triangles_push(
    inside: Seq<bool>,
    dim: (usize, usize, usize),
    tets: Seq<(int, int)>,
    t: (int, int),
)
    ensures
        assemble_triangles(inside, dim, tets.push(t)) == assemble_triangles(inside, dim, tets)
            + tet_triangles(inside, dim, t),
{
    assert(tets.push(t).drop_last() =~= tets);
}

/// The first `q` tetrahedra of a cell whose corners lie on one side of the level set add no
/// triangle.
proof fn lemma_uniform_cell_triangles(
    inside: Seq<bool>,
    dim: (usize, usize, usize),
    tets: Seq<(int, int)>,
    i: int,
    j: int,
    k: int,
    q: int,
)
    requires
        uniform_cell(inside, dim, cell_base(dim, i, j, k)),
        0 <= q <= 6,
    ensures
        assemble_triangles(inside, dim, tets + cell_tets(dim, i, j, k).take(q)) == assemble_triangles(
            inside,
            dim,
            tets,
        ),
    decreases q,
{
    let cell = cell_tets(dim, i, j, k);
    if q == 0 {
        assert(tets + cell.take(0) =~= tets);
    } else {
        lemma_uniform_cell_triangles(inside, dim, tets, i, j, k, q - 1);
        assert(tets + cell.take(q) =~= (tets + cell.take(q - 1)).push(cell[q - 1]));
        lemma_assemble_triangles_push(inside, dim, tets + cell.take(q - 1), cell[q - 1]);
        lemma_axis_order(q - 1);
        let t = cell[q - 1];
        let ins = tet_inside(inside, dim, t.0, t.1);
        lemma_cut_count(ins);
        assert(count_inside(ins) == 0 || count_inside(ins) == 4);
        let c = count_inside(ins);
        assert(c * (4 - c) == 0) by (nonlinear_arith)
            requires
                c == 0 || c == 4,
        ;
        assert(cut_edges(ins).len() == 0);
        assert(tet_triangles(inside, dim, t).len() == 0);
        assert(tet_triangles(inside, dim, t) =~= Seq::<[(usize, usize); 3]>::empty());
        assert(assemble_triangles(inside, dim, tets + cell.take(q - 1)) + tet_triangles(inside, dim, t)
            =~= assemble_triangles(inside, dim, tets + cell.take(q - 1)));
    }
}

/// Extracts the level set of a 3D grid field as a list of triangles, in the order in which
/// [`marching_tetrahedra`] makes its faces; each triangle gives, for each of its vertices, the
/// grid segment (outside node, inside node) that holds it. The triangles are made tetrahedron
/// by tetrahedron, with no vertex numbering, so the size of the grid is not bounded by it.
///
/// Fails with `ShapeMismatch` exactly when `inside` does not hold one flag per node.
pub fn marching_tetrahedra_triangles(inside: &[bool], dim: (usize, usize, usize)) -> (r: Result<
    Vec<[(usize, usize); 3]>,
    ExtractError,
>)
    ensures
        r is Err <==> inside@.len() != dim.0 * dim.1 * dim.2,
        r matches Ok(t) ==> t@ == surface_triangles(inside@, dim),
{
    let (ni, nj, nk) = dim;
    if !shape_matches3(inside.len(), dim) {
        return Err(ExtractError::ShapeMismatch);
    }
    let mut tris: Vec<[(usize, usize); 3]> = Vec::new();
    if ni == 0 {
        return Ok(tris);
    }
    let len = inside.len();
    proof {
        assert(nj * nk <= ni * (nj * nk)) by (nonlinear_arith)
            requires
                ni >= 1,
        ;
        assert(ni * (nj * nk) == ni * nj * nk) by (nonlinear_arith);
    }
    let njnk = nj * nk;
    let mut i: usize = 1;
    let mut si: usize = 0;
    while i < ni
        invariant
            1 <= i <= ni,
            len == inside@.len(),
            len == ni * njnk,
            njnk == nj * nk,
            si == (i - 1) * njnk,
            tris@ == assemble_triangles(inside@, dim, grid_tets(dim, i as int)),
            dim == (ni, nj, nk),
        decreases ni - i,
    {
        proof {
            assert(si + 2 * njnk <= len) by (nonlinear_arith)
                requires
                    si == (i - 1) * njnk,
                    i + 1 <= ni,
                    len == ni * njnk,
            ;
        }
        let mut j: usize = 1;
        let mut sij: usize = si;
        while j < nj
            invariant
                1 <= i < ni,
                1 <= j,
                j <= nj || j == 1,
                len == inside@.len(),
                njnk == nj * nk,
                si + 2 * njnk <= len,
                sij == si + (j - 1) * nk,
                si == (i - 1) * njnk,
                tris@ == assemble_triangles(inside@, dim, grid_tets(dim, i as int) + plane_tets(dim, i as int, j as int)),
                dim == (ni, nj, nk),
            decreases nj - j,
        {
            proof {
                assert(sij + 2 * nk <= si + njnk) by (nonlinear_arith)
                    requires
                        sij == si + (j - 1) * nk,
                        j + 1 <= nj,
                        njnk == nj * nk,
                ;
            }
            let ghost before_row = grid_tets(dim, i as int) + plane_tets(dim, i as int, j as int);
            let mut k: usize = 1;
            while k < nk
                invariant
                    1 <= i < ni,
                    1 <= j < nj,
                    1 <= k,
                    k <= nk || k == 1,
                    len == inside@.len(),
                    njnk == nj * nk,
                    si + 2 * njnk <= len,
                    sij + 2 * nk <= si + njnk,
                    sij == si + (j - 1) * nk,
                    si == (i - 1) * njnk,
                    tris@ == assemble_triangles(inside@, dim, before_row + row_tets(dim, i as int, j as int, k as int)),
                    before_row == grid_tets(dim, i as int) + plane_tets(dim, i as int, j as int),
                    dim == (ni, nj, nk),
                decreases nk - k,
            {
                let s = sij + k - 1;
                let ghost done = before_row + row_tets(dim, i as int, j as int, k as int);
                let ghost cell = cell_tets(dim, i as int, j as int, k as int);
                assert(s == cell_base(dim, i as int, j as int, k as int));
                let c = inside[s];
                let uniform = inside[s + 1] == c && inside[s + nk] == c && inside[s + nk + 1] == c
                    && inside[s + njnk] == c && inside[s + njnk + 1] == c && inside[s + njnk + nk] == c
                    && inside[s + njnk + nk + 1] == c;
                if uniform {
                    proof {
                        lemma_uniform_cell_triangles(inside@, dim, done, i as int, j as int, k as int, 6);
                    }
                } else {
                    let mut q: usize = 0;
                    while q < 6
                        invariant
                            q <= 6,
                            len == inside@.len(),
                            njnk == nj * nk,
                            s + njnk + nk + 1 < len,
                            tris@ == assemble_triangles(inside@, dim, done + cell.take(q as int)),
                            cell == cell_tets(dim, i as int, j as int, k as int),
                            s == cell_base(dim, i as int, j as int, k as int),
                            dim == (ni, nj, nk),
                        decreases 6 - q,
                    {
                        proof {
                            assert(done + cell.take(q + 1) =~= (done + cell.take(q as int)).push(cell[q as int]));
                            lemma_assemble_triangles_push(inside@, dim, done + cell.take(q as int), cell[q as int]);
                        }
                        add_tetrahedron_triangles(&mut tris, inside, dim, njnk, s, q);
                        q = q + 1;
                    }
                }
                proof {
                    assert(cell.take(6) =~= cell);
                    assert(row_tets(dim, i as int, j as int, k + 1) == row_tets(dim, i as int, j as int, k as int) + cell);
                    assert(done + cell =~= before_row + row_tets(dim, i as int, j as int, k + 1));
                }
                k = k + 1;
            }
            proof {
                assert(row_tets(dim, i as int, j as int, k as int) == row_tets(dim, i as int, j as int, nk as int));
                assert(plane_tets(dim, i as int, j + 1) == plane_tets(dim, i as int, j as int) + row_tets(dim, i as int, j as int, nk as int));
                assert(before_row + row_tets(dim, i as int, j as int, k as int) =~= grid_tets(dim, i as int) + plane_tets(dim, i as int, j + 1));
                assert(sij + nk == si + j * nk) by (nonlinear_arith)
                    requires
                        sij == si + (j - 1) * nk,
                ;
            }
            sij = sij + nk;
            j = j + 1;
        }
        proof {
            assert(plane_tets(dim, i as int, j as int) == plane_tets(dim, i as int, nj as int));
            assert(grid_tets(dim, i + 1) == grid_tets(dim, i as int) + plane_tets(dim, i as int, nj as int));
            assert(si + njnk == i * njnk) by (nonlinear_arith)
                requires
                    si == (i - 1) * njnk,
            ;
        }
        si = si + njnk;
        i = i + 1;
    }
    Ok(tris)
}

/// The level set of one cube whose corner `c` lies inside exactly when `inside[c]`, with
/// face indices moved past `offset` earlier vertices. Corner `c` is the corner
/// `(c >> 2 & 1, c >> 1 & 1, c & 1)`: the corners are the nodes of a 2 x 2 x 2 grid in
/// row-major order.
pub open spec fn cube_surface(inside: [bool; 8], offset: u32) -> SurfaceModel {
    let m = surface(inside@, (2, 2, 2));
    SurfaceModel {
        verts: m.verts,
        faces: m.faces.map_values(|f: [u32; 3]| shift_face(f, offset as int)),
        normals: m.normals,
    }
}

/// Marching tetrahedra on a single cube: the six tetrahedra of the cube are cut as in
/// [`marching_tetrahedra`], vertices and normals name cube corners (see [`cube_surface`]), and
/// face indices start at `vertex_index_offset`. Nothing is made when all eight corners lie on
/// one side.
pub fn marching_tetrahedra_cube(inside: [bool; 8], vertex_index_offset: u32) -> (r: SurfaceMesh)
    requires
        vertex_index_offset + 24 <= u32::MAX,
    ensures
        r@ == cube_surface(inside, vertex_index_offset),
        r.normals@.len() == r.verts@.len(),
        forall|f: int, c: int|
            0 <= f < r.faces@.len() && 0 <= c < 3 ==> (#[trigger] r.faces@[f][c] as int) < vertex_index_offset + r.verts@.len(),
{
    let corners: Vec<bool> = vec![
        inside[0],
        inside[1],
        inside[2],
        inside[3],
        inside[4],
        inside[5],
        inside[6],
        inside[7],
    ];
    assert(corners@ =~= inside@);
    assert(2 * 2 * 2 == 8);
    proof {
        lemma_vertex_bound(inside@, (2, 2, 2), grid_tets((2, 2, 2), 2));
        assert(grid_tets((2, 2, 2), 2).len() == 6) by {
            reveal_with_fuel(grid_tets, 3);
            reveal_with_fuel(plane_tets, 3);
            reveal_with_fuel(row_tets, 3);
        }
    }
    let mesh = match marching_tetrahedra(corners.as_slice(), (2, 2, 2)) {
        Ok(m) => m,
        Err(_) => {
            return SurfaceMesh { verts: Vec::new(), faces: Vec::new(), normals: Vec::new() };
        },
    };
    let mut faces: Vec<[u32; 3]> = Vec::new();
    let mut x: usize = 0;
    while x < mesh.faces.len()
        invariant
            x <= mesh.faces@.len(),
            well_formed(mesh@),
            mesh.verts@.len() <= 24,
            vertex_index_offset + 24 <= u32::MAX,
            faces@ == mesh.faces@.take(x as int).map_values(
                |f: [u32; 3]| shift_face(f, vertex_index_offset as int),
            ),
            forall|f: int, c: int|
                0 <= f < faces@.len() && 0 <= c < 3 ==> (#[trigger] faces@[f][c] as int) < vertex_index_offset + mesh.verts@.len(),
        decreases mesh.faces@.len() - x,
    {
        let f = mesh.faces[x];
        assert(mesh@.faces[x as int][0] < mesh@.verts.len());
        assert(mesh@.faces[x as int][1] < mesh@.verts.len());
        assert(mesh@.faces[x as int][2] < mesh@.verts.len());
        faces.push([f[0] + vertex_index_offset, f[1] + vertex_index_offset, f[2] + vertex_index_offset]);
        proof {
            assert(mesh.faces@.take(x + 1) =~= mesh.faces@.take(x as int).push(f));
            assert(faces@ =~= mesh.faces@.take(x + 1).map_values(
                |f: [u32; 3]| shift_face(f, vertex_index_offset as int),
            ));
        }
        x = x + 1;
    }
    proof {
        assert(mesh.faces@.take(x as int) =~= mesh.faces@);
    }
    SurfaceMesh { verts: mesh.verts, faces, normals: mesh.normals }
}

/// A mesh made of `n` tetrahedra has at most four vertices per tetrahedron.
pub proof fn lemma_vertex_bound(inside: Seq<bool>, dim: (usize, usize, usize), tets: Seq<(int, int)>)
    ensures
        assemble(inside, dim, tets).verts.len() <= 4 * tets.len(),
    decreases tets.len(),
{
    if tets.len() > 0 {
        lemma_vertex_bound(inside, dim, tets.drop_last());
        let t = tets.last();
        let ins = tet_inside(inside, dim, t.0, t.1);
        lemma_cut_count(ins);
        let c = count_inside(ins);
        assert(c == 0 || c == 1 || c == 2 || c == 3 || c == 4);
        assert(c * (4 - c) <= 4) by (nonlinear_arith)
            requires
                c == 0 || c == 1 || c == 2 || c == 3 || c == 4,
        ;
    }
}

/// A field in which the eight corners of every cell lie on one side of the level set has an
/// empty level set: no vertex, no face.
pub proof fn lemma_uniform_field_empty(inside: Seq<bool>, dim: (usize, usize, usize))
    requires
        forall|i: int, j: int, k: int|
            1 <= i < dim.0 && 1 <= j < dim.1 && 1 <= k < dim.2 ==> uniform_cell(
                inside,
                dim,
                #[trigger] cell_base(dim, i, j, k),
            ),
    ensures
        surface(inside, dim) == empty_model(),
{
    lemma_uniform_grid(inside, dim, dim.0 as int);
    assert(seq![] + grid_tets(dim, dim.0 as int) =~= grid_tets(dim, dim.0 as int));
}

proof fn lemma_uniform_row(inside: Seq<bool>, dim: (usize, usize, usize), tets: Seq<(int, int)>, i: int, j: int, k: int)
    requires
        forall|i: int, j: int, k: int|
            1 <= i < dim.0 && 1 <= j < dim.1 && 1 <= k < dim.2 ==> uniform_cell(
                inside,
                dim,
                #[trigger] cell_base(dim, i, j, k),
            ),
        1 <= i < dim.0,
        1 <= j < dim.1,
        k <= dim.2,
    ensures
        assemble(inside, dim, tets + row_tets(dim, i, j, k)) == assemble(inside, dim, tets),
    decreases k,
{
    if k <= 1 {
        assert(tets + row_tets(dim, i, j, k) =~= tets);
    } else {
        let cell = cell_tets(dim, i, j, k - 1);
        lemma_uniform_row(inside, dim, tets, i, j, k - 1);
        lemma_uniform_cell_prefix(inside, dim, tets + row_tets(dim, i, j, k - 1), i, j, k - 1, 6);
        assert(cell.take(6) =~= cell);
        assert(tets + row_tets(dim, i, j, k) =~= (tets + row_tets(dim, i, j, k - 1)) + cell);
    }
}

proof fn lemma_uniform_plane(inside: Seq<bool>, dim: (usize, usize, usize), tets: Seq<(int, int)>, i: int, j: int)
    requires
        forall|i: int, j: int, k: int|
            1 <= i < dim.0 && 1 <= j < dim.1 && 1 <= k < dim.2 ==> uniform_cell(
                inside,
                dim,
                #[trigger] cell_base(dim, i, j, k),
            ),
        1 <= i < dim.0,
        j <= dim.1,
    ensures
        assemble(inside, dim, tets + plane_tets(dim, i, j)) == assemble(inside, dim, tets),
    decreases j,
{
    if j <= 1 {
        assert(tets + plane_tets(dim, i, j) =~= tets);
    } else {
        lemma_uniform_plane(inside, dim, tets, i, j - 1);
        lemma_uniform_row(inside, dim, tets + plane_tets(dim, i, j - 1), i, j - 1, dim.2 as int);
        assert(tets + plane_tets(dim, i, j) =~= (tets + plane_tets(dim, i, j - 1)) + row_tets(dim, i, j - 1, dim.2 as int));
    }
}

proof fn lemma_uniform_grid(inside: Seq<bool>, dim: (usize, usize, usize), i: int)
    requires
        forall|i: int, j: int, k: int|
            1 <= i < dim.0 && 1 <= j < dim.1 && 1 <= k < dim.2 ==> uniform_cell(
                inside,
                dim,
                #[trigger] cell_base(dim, i, j, k),
            ),
        i <= dim.0,
    ensures
        assemble(inside, dim, grid_tets(dim, i)) == empty_model(),
    decreases i,
{
    if i > 1 {
        lemma_uniform_grid(inside, dim, i - 1);
        lemma_uniform_plane(inside, dim, grid_tets(dim, i - 1), i - 1, dim.1 as int);
    }
}

/// Appending tetrahedra never removes vertices.
pub proof fn lemma_assemble_grows(inside: Seq<bool>, dim: (usize, usize, usize), a: Seq<(int, int)>, r: Seq<(int, int)>)
    ensures
        assemble(inside, dim, a + r).verts.len() >= assemble(inside, dim, a).verts.len(),
    decreases r.len(),
{
    if r.len() == 0 {
        assert(a + r =~= a);
    } else {
        lemma_assemble_grows(inside, dim, a, r.drop_last());
        assert((a + r).drop_last() =~= a + r.drop_last());
    }
}

proof fn lemma_row_extends(dim: (usize, usize, usize), i: int, j: int, k1: int, k2: int) -> (r: Seq<(int, int)>)
    requires
        k1 <= k2,
    ensures
        row_tets(dim, i, j, k2) == row_tets(dim, i, j, k1) + r,
    decreases k2 - k1,
{
    if k1 == k2 || k2 <= 1 {
        if k2 <= 1 {
            assert(row_tets(dim, i, j, k1) == Seq::<(int, int)>::empty());
        }
        assert(row_tets(dim, i, j, k2) =~= row_tets(dim, i, j, k1) + Seq::<(int, int)>::empty());
        seq![]
    } else {
        let r0 = lemma_row_extends(dim, i, j, k1, k2 - 1);
        assert(row_tets(dim, i, j, k2) =~= row_tets(dim, i, j, k1) + (r0 + cell_tets(dim, i, j, k2 - 1)));
        r0 + cell_tets(dim, i, j, k2 - 1)
    }
}

proof fn lemma_plane_extends(dim: (usize, usize, usize), i: int, j1: int, j2: int) -> (r: Seq<(int, int)>)
    requires
        j1 <= j2,
    ensures
        plane_tets(dim, i, j2) == plane_tets(dim, i, j1) + r,
    decreases j2 - j1,
{
    if j1 == j2 || j2 <= 1 {
        if j2 <= 1 {
            assert(plane_tets(dim, i, j1) == Seq::<(int, int)>::empty());
        }
        assert(plane_tets(dim, i, j2) =~= plane_tets(dim, i, j1) + Seq::<(int, int)>::empty());
        seq![]
    } else {
        let r0 = lemma_plane_extends(dim, i, j1, j2 - 1);
        let row = row_tets(dim, i, j2 - 1, dim.2 as int);
        assert(plane_tets(dim, i, j2) =~= plane_tets(dim, i, j1) + (r0 + row));
        r0 + row
    }
}

proof fn lemma_grid_extends(dim: (usize, usize, usize), i1: int, i2: int) -> (r: Seq<(int, int)>)
    requires
        i1 <= i2,
    ensures
        grid_tets(dim, i2) == grid_tets(dim, i1) + r,
    decreases i2 - i1,
{
    if i1 == i2 || i2 <= 1 {
        if i2 <= 1 {
            assert(grid_tets(dim, i1) == Seq::<(int, int)>::empty());
        }
        assert(grid_tets(dim, i2) =~= grid_tets(dim, i1) + Seq::<(int, int)>::empty());
        seq![]
    } else {
        let r0 = lemma_grid_extends(dim, i1, i2 - 1);
        let plane = plane_tets(dim, i2 - 1, dim.1 as int);
        assert(grid_tets(dim, i2) =~= grid_tets(dim, i1) + (r0 + plane));
        r0 + plane
    }
}

/// The tetrahedra up to tetrahedron `q` of cell `(i, j, k)` come first in the whole grid's.
proof fn lemma_cell_prefix(dim: (usize, usize, usize), i: int, j: int, k: int, q: int) -> (r: Seq<(int, int)>)
    requires
        1 <= i < dim.0,
        1 <= j < dim.1,
        1 <= k < dim.2,
        0 <= q < 6,
    ensures
        grid_tets(dim, dim.0 as int) == grid_tets(dim, i) + plane_tets(dim, i, j) + row_tets(dim, i, j, k)
            + cell_tets(dim, i, j, k).take(q + 1) + r,
{
    let cell = cell_tets(dim, i, j, k);
    let r1 = lemma_grid_extends(dim, i + 1, dim.0 as int);
    let r2 = lemma_plane_extends(dim, i, j + 1, dim.1 as int);
    let r3 = lemma_row_extends(dim, i, j, k + 1, dim.2 as int);
    assert(grid_tets(dim, i + 1) == grid_tets(dim, i) + plane_tets(dim, i, dim.1 as int));
    assert(plane_tets(dim, i, j + 1) == plane_tets(dim, i, j) + row_tets(dim, i, j, dim.2 as int));
    assert(row_tets(dim, i, j, k + 1) == row_tets(dim, i, j, k) + cell);
    let r = cell.skip(q + 1) + r3 + r2 + r1;
    assert(cell =~= cell.take(q + 1) + cell.skip(q + 1));
    assert(grid_tets(dim, dim.0 as int) =~= grid_tets(dim, i) + plane_tets(dim, i, j) + row_tets(dim, i, j, k)
        + cell.take(q + 1) + r);
    r
}

/// Appending one tetrahedron to a sequence appends its cut to the mesh.
pub proof fn lemma_assemble_push(
    inside: Seq<bool>,
    dim: (usize, usize, usize),
    tets: Seq<(int, int)>,
    t: (int, int),
)
    ensures
        assemble(inside, dim, tets.push(t)) == add_tetrahedron(assemble(inside, dim, tets), inside, dim, t),
{
    assert(tets.push(t).drop_last() =~= tets);
}

/// A tetrahedron whose four corners lie on one side of the level set adds nothing.
pub proof fn lemma_uniform_tetrahedron(
    m: SurfaceModel,
    inside: Seq<bool>,
    dim: (usize, usize, usize),
    t: (int, int),
)
    requires
        ({
            let ins = tet_inside(inside, dim, t.0, t.1);
            ins[0] == ins[1] && ins[0] == ins[2] && ins[0] == ins[3]
        }),
    ensures
        add_tetrahedron(m, inside, dim, t) == m,
{
    let ins = tet_inside(inside, dim, t.0, t.1);
    lemma_cut_count(ins);
    assert(count_inside(ins) == 0 || count_inside(ins) == 4);
    let r = add_tetrahedron(m, inside, dim, t);
    assert(r.verts =~= m.verts);
    assert(r.faces =~= m.faces);
    assert(r.normals =~= m.normals);
}

/// The eight corners of the cell whose lowest corner is node `s` lie on one side of the level set.
pub open spec fn uniform_cell(inside: Seq<bool>, dim: (usize, usize, usize), s: int) -> bool {
    let a = dim.1 * dim.2;
    let b = dim.2 as int;
    &&& inside[s + 1] == inside[s]
    &&& inside[s + b] == inside[s]
    &&& inside[s + b + 1] == inside[s]
    &&& inside[s + a] == inside[s]
    &&& inside[s + a + 1] == inside[s]
    &&& inside[s + a + b] == inside[s]
    &&& inside[s + a + b + 1] == inside[s]
}

/// The first `q` tetrahedra of a cell whose corners lie on one side of the level set add nothing.
proof fn lemma_uniform_cell_prefix(
    inside: Seq<bool>,
    dim: (usize, usize, usize),
    tets: Seq<(int, int)>,
    i: int,
    j: int,
    k: int,
    q: int,
)
    requires
        uniform_cell(inside, dim, cell_base(dim, i, j, k)),
        0 <= q <= 6,
    ensures
        assemble(inside, dim, tets + cell_tets(dim, i, j, k).take(q)) == assemble(inside, dim, tets),
    decreases q,
{
    let cell = cell_tets(dim, i, j, k);
    if q == 0 {
        assert(tets + cell.take(0) =~= tets);
    } else {
        lemma_uniform_cell_prefix(inside, dim, tets, i, j, k, q - 1);
        assert(tets + cell.take(q) =~= (tets + cell.take(q - 1)).push(cell[q - 1]));
        lemma_assemble_push(inside, dim, tets + cell.take(q - 1), cell[q - 1]);
        lemma_axis_order(q - 1);
        lemma_uniform_tetrahedron(assemble(inside, dim, tets), inside, dim, cell[q - 1]);
    }
}

} // verus!
