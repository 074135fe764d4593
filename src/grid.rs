use vstd::prelude::*;

verus! {

/// Why an extraction was refused.
#[derive(Clone, Copy, Debug, PartialEq, Eq, Structural)]
pub enum ExtractError {
    /// The sample buffer does not hold one sample per grid node.
    ShapeMismatch,
    /// The mesh would have more vertices than its `u32` face indices can number.
    TooManyVertices,
}

/// `len` is the number of nodes of a 3D grid of dimensions `dim`.
pub fn shape_matches3(len: usize, dim: (usize, usize, usize)) -> (r: bool)
    ensures
        r == (len as int == dim.0 * dim.1 * dim.2),
{
    let (ni, nj, nk) = dim;
    if ni == 0 || nj == 0 || nk == 0 {
        proof {
            assert(dim.0 * dim.1 * dim.2 == 0) by (nonlinear_arith)
                requires
                    dim.0 == 0 || dim.1 == 0 || dim.2 == 0,
            ;
        }
        return len == 0;
    }
    match ni.checked_mul(nj) {
        None => {
            proof {
                assert(dim.0 * dim.1 * dim.2 >= dim.0 * dim.1) by (nonlinear_arith)
                    requires
                        dim.2 >= 1,
                        dim.0 * dim.1 >= 0,
                ;
            }
            false
        },
        Some(nij) => match nij.checked_mul(nk) {
            None => false,
            Some(n) => n == len,
        },
    }
}

/// `len` is the number of nodes of a 2D grid of dimensions `dim`.
pub fn shape_matches2(len: usize, dim: (usize, usize)) -> (r: bool)
    ensures
        r == (len as int == dim.0 * dim.1),
{
    match dim.0.checked_mul(dim.1) {
        None => false,
        Some(n) => n == len,
    }
}

} // verus!
