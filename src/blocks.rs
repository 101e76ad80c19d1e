use crate::structs::Block;
use vstd::arithmetic::div_mod::{lemma_fundamental_div_mod, lemma_fundamental_div_mod_converse};
use vstd::prelude::*;

verus! {

/// The block whose upper-left pixel sits at row `2 * bi`, column `2 * bj` of
/// the row-major grid `px` of width `w`.
pub open spec fn block_at<P>(px: Seq<P>, w: int, bi: int, bj: int) -> Block<P> {
    Block {
        pix_1: px[(2 * bi) * w + 2 * bj],
        pix_2: px[(2 * bi) * w + 2 * bj + 1],
        pix_3: px[(2 * bi + 1) * w + 2 * bj],
        pix_4: px[(2 * bi + 1) * w + 2 * bj + 1],
    }
}

/// The pixel of `b` at row `ci`, column `cj` of its 2x2 neighbourhood.
pub open spec fn corner<P>(b: Block<P>, ci: int, cj: int) -> P {
    if ci == 0 {
        if cj == 0 {
            b.pix_1
        } else {
            b.pix_2
        }
    } else {
        if cj == 0 {
            b.pix_3
        } else {
            b.pix_4
        }
    }
}

/// The pixel at flat row-major index `p` of the grid of width `w` that the
/// blocks cover, blocks being listed in row-major order.
pub open spec fn pixel_from_blocks<P>(blocks: Seq<Block<P>>, w: int, p: int) -> P {
    let i = p / w;
    let j = p % w;
    corner(blocks[(i / 2) * (w / 2) + j / 2], i % 2, j % 2)
}

/// The 2x2 blocks of the row-major grid `px` of width `w` and height `h`,
/// listed in row-major order.
pub open spec fn blocks_of<P>(px: Seq<P>, w: int, h: int) -> Seq<Block<P>> {
    Seq::new(((w / 2) * (h / 2)) as nat, |k: int| block_at(px, w, k / (w / 2), k % (w / 2)))
}

/// The row-major grid of width `w` and height `h` that the blocks cover.
pub open spec fn pixels_of<P>(blocks: Seq<Block<P>>, w: int, h: int) -> Seq<P> {
    Seq::new((w * h) as nat, |p: int| pixel_from_blocks(blocks, w, p))
}

/// Grouping a grid of even width and height into blocks and writing the
/// blocks back gives the grid again.
pub proof fn lemma_blocks_round_trip<P>(px: Seq<P>, w: int, h: int)
    requires
        0 <= w,
        0 <= h,
        w % 2 == 0,
        h % 2 == 0,
        px.len() == w * h,
    ensures
        pixels_of(blocks_of(px, w, h), w, h) == px,
{
    let bs = blocks_of(px, w, h);
    let hw = w / 2;
    let hh = h / 2;
    assert forall|p: int| 0 <= p < w * h implies #[trigger] pixel_from_blocks(bs, w, p)
        == px[p] by {
        assert(w > 0) by (nonlinear_arith)
            requires
                0 <= p < w * h,
                0 <= h,
        ;
        let i = p / w;
        let j = p % w;
        lemma_fundamental_div_mod(p, w);
        assert(0 <= i < h) by (nonlinear_arith)
            requires
                p == w * i + j,
                0 <= j < w,
                0 <= p < w * h,
        ;
        let bi = i / 2;
        let bj = j / 2;
        let k = bi * hw + bj;
        assert(0 <= k < hw * hh) by (nonlinear_arith)
            requires
                0 <= i < h,
                0 <= j < w,
                bi == i / 2,
                bj == j / 2,
                k == bi * hw + bj,
                hw == w / 2,
                hh == h / 2,
                w % 2 == 0,
                h % 2 == 0,
        ;
        lemma_fundamental_div_mod_converse(k, hw, bi, bj);
        assert((2 * bi + i % 2) * w + 2 * bj + j % 2 == p) by (nonlinear_arith)
            requires
                p == w * i + j,
                i == 2 * bi + i % 2,
                j == 2 * bj + j % 2,
        ;
    }
    assert(pixels_of(bs, w, h) =~= px);
}

/// Row-major index of row `i`, column `j` in a grid of width `width`.
pub fn get(i: usize, j: usize, width: usize) -> (r: usize)
    requires
        i * width + j <= usize::MAX,
    ensures
        r == i * width + j,
{
    i * width + j
}

/// Row-major index of row `i`, column `j` in a grid of width `width`, where a
/// pixel is written back.
pub fn set(i: usize, j: usize, width: usize) -> (r: usize)
    requires
        i * width + j <= usize::MAX,
    ensures
        r == i * width + j,
{
    get(i, j, width)
}

/// Groups a row-major grid of even width and height into its 2x2 blocks,
/// listed in row-major order.
pub fn cvc_to_blocks<P: Copy>(cvc_pixels: Vec<P>, width: usize, height: usize) -> (r: Vec<
    Block<P>,
>)
    requires
        width % 2 == 0,
        height % 2 == 0,
        cvc_pixels.len() == width * height,
    ensures
        r@ == blocks_of(cvc_pixels@, width as int, height as int),
{
    let hw = width / 2;
    let hh = height / 2;
    let mut blocks: Vec<Block<P>> = Vec::new();
    let mut bi: usize = 0;
    while bi < hh
        invariant
            hw == width / 2,
            hh == height / 2,
            width % 2 == 0,
            height % 2 == 0,
            cvc_pixels.len() == width * height,
            bi <= hh,
            blocks.len() == bi * hw,
            forall|k: int|
                0 <= k < blocks.len() ==> #[trigger] blocks[k] == block_at(
                    cvc_pixels@,
                    width as int,
                    k / hw as int,
                    k % hw as int,
                ),
        decreases hh - bi,
    {
        let mut bj: usize = 0;
        while bj < hw
            invariant
                hw == width / 2,
                hh == height / 2,
                width % 2 == 0,
                height % 2 == 0,
                cvc_pixels.len() == width * height,
                bi < hh,
                bj <= hw,
                blocks.len() == bi * hw + bj,
                forall|k: int|
                    0 <= k < blocks.len() ==> #[trigger] blocks[k] == block_at(
                        cvc_pixels@,
                        width as int,
                        k / hw as int,
                        k % hw as int,
                    ),
            decreases hw - bj,
        {
            proof {
                assert((2 * bi + 1) * width + 2 * bj + 1 < width * height) by (nonlinear_arith)
                    requires
                        2 * bi + 2 <= height,
                        2 * bj + 2 <= width,
                ;
                assert((2 * bi) * width + 2 * bj + 1 < (2 * bi + 1) * width + 2 * bj + 1)
                    by (nonlinear_arith)
                    requires
                        2 * bj + 2 <= width,
                ;
            }
            let top = get(2 * bi, 2 * bj, width);
            let bottom = get(2 * bi + 1, 2 * bj, width);
            let block = Block {
                pix_1: cvc_pixels[top],
                pix_2: cvc_pixels[top + 1],
                pix_3: cvc_pixels[bottom],
                pix_4: cvc_pixels[bottom + 1],
            };
            let ghost before = blocks@;
            blocks.push(block);
            proof {
                let k = bi * hw + bj;
                lemma_fundamental_div_mod_converse(k as int, hw as int, bi as int, bj as int);
                assert forall|m: int| 0 <= m < blocks.len() implies #[trigger] blocks[m]
                    == block_at(cvc_pixels@, width as int, m / hw as int, m % hw as int) by {
                    if m < before.len() {
                        assert(blocks[m] == before[m]);
                    }
                }
            }
            bj = bj + 1;
        }
        proof {
            assert(blocks.len() == (bi + 1) * hw) by (nonlinear_arith)
                requires
                    blocks.len() == bi * hw + hw,
            ;
        }
        bi = bi + 1;
    }
    proof {
        assert(blocks.len() == (width / 2) * (height / 2)) by (nonlinear_arith)
            requires
                blocks.len() == bi * hw,
                bi == hh,
                hw == width / 2,
                hh == height / 2,
        ;
        assert(blocks@ =~= blocks_of(cvc_pixels@, width as int, height as int));
    }
    blocks
}

/// Writes 2x2 blocks, listed in row-major order, back into the row-major
/// grid of even width and height that they cover.
pub fn blocks_to_cvc<P: Copy>(blocks: Vec<Block<P>>, width: usize, height: usize) -> (r: Vec<P>)
    requires
        width % 2 == 0,
        height % 2 == 0,
        blocks.len() == (width / 2) * (height / 2),
        width * height <= usize::MAX,
    ensures
        r@ == pixels_of(blocks@, width as int, height as int),
{
    let hw = width / 2;
    let hh = height / 2;
    let mut pixels: Vec<P> = Vec::new();
    let mut i: usize = 0;
    while i < height
        invariant
            hw == width / 2,
            hh == height / 2,
            width % 2 == 0,
            height % 2 == 0,
            blocks.len() == hw * hh,
            width * height <= usize::MAX,
            i <= height,
            pixels.len() == i * width,
            forall|p: int|
                0 <= p < pixels.len() ==> #[trigger] pixels[p] == pixel_from_blocks(
                    blocks@,
                    width as int,
                    p,
                ),
        decreases height - i,
    {
        let mut j: usize = 0;
        while j < width
            invariant
                hw == width / 2,
                hh == height / 2,
                width % 2 == 0,
                height % 2 == 0,
                blocks.len() == hw * hh,
                width * height <= usize::MAX,
                i < height,
                j <= width,
                pixels.len() == i * width + j,
                forall|p: int|
                    0 <= p < pixels.len() ==> #[trigger] pixels[p] == pixel_from_blocks(
                        blocks@,
                        width as int,
                        p,
                    ),
            decreases width - j,
        {
            proof {
                assert((i / 2) * hw + j / 2 < hw * hh) by (nonlinear_arith)
                    requires
                        i < height,
                        j < width,
                        hw == width / 2,
                        hh == height / 2,
                        width % 2 == 0,
                        height % 2 == 0,
                ;
                assert(i * width + j < width * height) by (nonlinear_arith)
                    requires
                        i < height,
                        j < width,
                ;
            }
            let block = blocks[(i / 2) * hw + j / 2];
            let pixel = if i % 2 == 0 {
                if j % 2 == 0 {
                    block.pix_1
                } else {
                    block.pix_2
                }
            } else {
                if j % 2 == 0 {
                    block.pix_3
                } else {
                    block.pix_4
                }
            };
            let ghost before = pixels@;
            pixels.push(pixel);
            proof {
                let p = i * width + j;
                lemma_fundamental_div_mod_converse(p as int, width as int, i as int, j as int);
                assert forall|m: int| 0 <= m < pixels.len() implies #[trigger] pixels[m]
                    == pixel_from_blocks(blocks@, width as int, m) by {
                    if m < before.len() {
                        assert(pixels[m] == before[m]);
                    }
                }
            }
            j = j + 1;
        }
        proof {
            assert(pixels.len() == (i + 1) * width) by (nonlinear_arith)
                requires
                    pixels.len() == i * width + width,
            ;
        }
        i = i + 1;
    }
    proof {
        assert(pixels.len() == width * height) by (nonlinear_arith)
            requires
                pixels.len() == i * width,
                i == height,
        ;
        assert(pixels@ =~= pixels_of(blocks@, width as int, height as int));
    }
    pixels
}

} // verus!
