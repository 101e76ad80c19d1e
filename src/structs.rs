use vstd::prelude::*;

verus! {

/// The six fields of one codeword, as integers: the quantized average
/// brightness `a`, the quantized detail coefficients `b`, `c`, `d`, and the
/// palette indices of the two chroma means.
#[derive(Clone, Copy, Debug, PartialEq, Eq, Structural)]
pub struct UnpackedWord {
    pub a: u64,
    pub b: i64,
    pub c: i64,
    pub d: i64,
    pub pb: usize,
    pub pr: usize,
}

/// A 2x2 neighbourhood of pixels in raster order: `pix_1` and `pix_2` on the
/// upper row, `pix_3` and `pix_4` on the lower one.
#[derive(Clone, Copy, Debug, PartialEq, Eq)]
pub struct Block<P> {
    pub pix_1: P,
    pub pix_2: P,
    pub pix_3: P,
    pub pix_4: P,
}

} // verus!
