use vstd::arithmetic::div_mod::lemma_fundamental_div_mod_converse;
use vstd::prelude::*;

verus! {

/// `n` rounded down to an even number.
pub open spec fn even_floor(n: int) -> int {
    n - n % 2
}

/// The upper-left `tw` by `th` part of the row-major grid `px` of width `w`,
/// in row-major order.
pub open spec fn cropped<P>(px: Seq<P>, w: int, tw: int, th: int) -> Seq<P> {
    Seq::new((tw * th) as nat, |p: int| px[(p / tw) * w + p % tw])
}

/// The largest even width and height that an image of the given size holds.
pub fn trimmed_size(width: u32, height: u32) -> (r: (usize, usize))
    ensures
        r.0 == even_floor(width as int),
        r.1 == even_floor(height as int),
{
    let w = width & !1u32;
    let h = height & !1u32;
    assert(w == width - width % 2) by (bit_vector)
        requires
            w == width & !1u32,
    ;
    assert(h == height - height % 2) by (bit_vector)
        requires
            h == height & !1u32,
    ;
    (w as usize, h as usize)
}

/// Drops the last column of a grid of odd width and the last row of a grid of
/// odd height, so that both dimensions are even.
pub fn trimmed_pixels<P: Copy>(pixels: &Vec<P>, width: usize, height: usize) -> (r: Vec<P>)
    requires
        pixels.len() == width * height,
    ensures
        r@ == cropped(
            pixels@,
            width as int,
            even_floor(width as int),
            even_floor(height as int),
        ),
{
    let tw = width - width % 2;
    let th = height - height % 2;
    let mut out: Vec<P> = Vec::new();
    let mut i: usize = 0;
    while i < th
        invariant
            tw == width - width % 2,
            th == height - height % 2,
            pixels.len() == width * height,
            i <= th,
            out.len() == i * tw,
            forall|p: int|
                0 <= p < out.len() ==> #[trigger] out[p] == pixels[(p / tw as int) * width + p
                    % tw as int],
        decreases th - i,
    {
        let mut j: usize = 0;
        while j < tw
            invariant
                tw == width - width % 2,
                th == height - height % 2,
                pixels.len() == width * height,
                i < th,
                j <= tw,
                out.len() == i * tw + j,
                forall|p: int|
                    0 <= p < out.len() ==> #[trigger] out[p] == pixels[(p / tw as int) * width
                        + p % tw as int],
            decreases tw - j,
        {
            proof {
                assert(i * width + j < width * height) by (nonlinear_arith)
                    requires
                        i < height,
                        j < width,
                ;
            }
            let pixel = pixels[i * width + j];
            let ghost before = out@;
            out.push(pixel);
            proof {
                lemma_fundamental_div_mod_converse(
                    (i * tw + j) as int,
                    tw as int,
                    i as int,
                    j as int,
                );
                assert forall|p: int| 0 <= p < out.len() implies #[trigger] out[p] == pixels[(p
                    / tw as int) * width + p % tw as int] by {
                    if p < before.len() {
                        assert(out[p] == before[p]);
                    }
                }
            }
            j = j + 1;
        }
        proof {
            assert(out.len() == (i + 1) * tw) by (nonlinear_arith)
                requires
                    out.len() == i * tw + tw,
            ;
        }
        i = i + 1;
    }
    proof {
        assert(out.len() == tw * th) by (nonlinear_arith)
            requires
                out.len() == i * tw,
                i == th,
        ;
        assert(out@ =~= cropped(pixels@, width as int, tw as int, th as int));
    }
    out
}

} // verus!
