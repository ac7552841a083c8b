use vstd::prelude::*;

verus! {

use vstd::arithmetic::div_mod::lemma_fundamental_div_mod;
use vstd::arithmetic::div_mod::lemma_fundamental_div_mod_converse;
use vstd::arithmetic::div_mod::lemma_mod_bound;

/// The buffer is a whole grid of 2x2 blocks: the row width is positive and
/// even, and the buffer holds an even number of whole rows.
pub open spec fn grid_wf(width: int, len: int) -> bool {
    &&& 2 <= width
    &&& width % 2 == 0
    &&& len % (2 * width) == 0
}

/// Pixel offset of the top-left corner of the `b`-th 2x2 CFA block in a
/// row-major buffer of row width `width`: the block's pixel row is
/// `2b / width`, and the top-left pixel sits `2b` pixels past that row's
/// start.
pub open spec fn block_top_left(width: int, b: int) -> int {
    (2 * b) / width * width + 2 * b
}

/// The `m`-th pixel (0 = top-left, 1 = top-right, 2 = bottom-left,
/// 3 = bottom-right) of the `b`-th 2x2 CFA block.
pub open spec fn block_pixel(width: int, b: int, m: int) -> int {
    block_top_left(width, b) + m % 2 + m / 2 * width
}

/// Index of the 2x2 CFA block that pixel `i` belongs to.
pub open spec fn pixel_block(width: int, i: int) -> int {
    i / width / 2 * (width / 2) + i % width / 2
}

/// Which corner of its block pixel `i` is (0 = top-left, 1 = top-right,
/// 2 = bottom-left, 3 = bottom-right).
pub open spec fn pixel_offset(width: int, i: int) -> int {
    i / width % 2 * 2 + i % width % 2
}

/// Each valid block index addresses four in-bounds pixels, and each of those
/// pixels maps back to that block and corner: the blocks never overlap.
pub proof fn lemma_block_pixel(width: int, len: int, b: int, m: int)
    requires
        grid_wf(width, len),
        0 <= b < len / 4,
        0 <= m < 4,
    ensures
        0 <= block_pixel(width, b, m) < len,
        pixel_block(width, block_pixel(width, b, m)) == b,
        pixel_offset(width, block_pixel(width, b, m)) == m,
{
    let w2 = width / 2;
    let h2 = len / (2 * width);
    assert(width == 2 * w2);
    assert(len == h2 * (2 * width)) by {
        lemma_fundamental_div_mod(len, 2 * width);
    }
    assert(len / 4 == w2 * h2) by {
        assert(len == (w2 * h2) * 4 + 0) by (nonlinear_arith)
            requires
                len == h2 * (2 * width),
                width == 2 * w2,
        ;
        lemma_fundamental_div_mod_converse(len, 4, w2 * h2, 0);
    }
    let br = b / w2;
    let bc = b % w2;
    assert(b == br * w2 + bc && 0 <= bc < w2) by {
        lemma_fundamental_div_mod(b, w2);
        lemma_mod_bound(b, w2);
    }
    assert(br < h2) by (nonlinear_arith)
        requires
            b == br * w2 + bc,
            0 <= bc < w2,
            b < w2 * h2,
            0 < w2,
    ;
    assert(0 <= br) by (nonlinear_arith)
        requires
            b == br * w2 + bc,
            0 <= b,
            0 <= bc < w2,
    ;
    // The top-left corner of block b is pixel (2 br) * width + 2 bc.
    assert((2 * b) / width == br && block_top_left(width, b) == 2 * br * width + 2 * bc) by {
        assert(2 * b == br * width + 2 * bc && 0 <= 2 * bc < width) by (nonlinear_arith)
            requires
                b == br * w2 + bc,
                width == 2 * w2,
                0 <= bc < w2,
        ;
        lemma_fundamental_div_mod_converse(2 * b, width, br, 2 * bc);
        assert(br * width + 2 * b == 2 * br * width + 2 * bc) by (nonlinear_arith)
            requires
                2 * b == br * width + 2 * bc,
        ;
    }
    let rp = m / 2;
    let cp = m % 2;
    let i = block_pixel(width, b, m);
    assert(i == (2 * br + rp) * width + (2 * bc + cp)) by (nonlinear_arith)
        requires
            i == 2 * br * width + 2 * bc + cp + rp * width,
    ;
    assert(0 <= 2 * bc + cp < width);
    assert(i / width == 2 * br + rp && i % width == 2 * bc + cp) by {
        lemma_fundamental_div_mod_converse(i, width, 2 * br + rp, 2 * bc + cp);
    }
    assert(0 <= i < len) by (nonlinear_arith)
        requires
            i == (2 * br + rp) * width + (2 * bc + cp),
            len == h2 * (2 * width),
            0 <= br < h2,
            0 <= rp < 2,
            0 <= 2 * bc + cp < width,
            2 <= width,
    ;
    assert((2 * br + rp) / 2 == br && (2 * br + rp) % 2 == rp) by {
        lemma_fundamental_div_mod_converse(2 * br + rp, 2, br, rp);
    }
    assert((2 * bc + cp) / 2 == bc && (2 * bc + cp) % 2 == cp) by {
        lemma_fundamental_div_mod_converse(2 * bc + cp, 2, bc, cp);
    }
    assert(pixel_block(width, i) == b);
    assert(pixel_offset(width, i) == m);
}

/// Each in-bounds pixel belongs to exactly one valid block, at the corner
/// `pixel_offset` names: the blocks cover the whole buffer.
pub proof fn lemma_pixel_block(width: int, len: int, i: int)
    requires
        grid_wf(width, len),
        0 <= i < len,
    ensures
        0 <= pixel_block(width, i) < len / 4,
        0 <= pixel_offset(width, i) < 4,
        block_pixel(width, pixel_block(width, i), pixel_offset(width, i)) == i,
{
    let w2 = width / 2;
    let h2 = len / (2 * width);
    assert(width == 2 * w2);
    assert(len == h2 * (2 * width)) by {
        lemma_fundamental_div_mod(len, 2 * width);
    }
    assert(len / 4 == w2 * h2) by {
        assert(len == (w2 * h2) * 4 + 0) by (nonlinear_arith)
            requires
                len == h2 * (2 * width),
                width == 2 * w2,
        ;
        lemma_fundamental_div_mod_converse(len, 4, w2 * h2, 0);
    }
    let row = i / width;
    let col = i % width;
    assert(i == row * width + col && 0 <= col < width) by {
        lemma_fundamental_div_mod(i, width);
        lemma_mod_bound(i, width);
    }
    assert(0 <= row < 2 * h2) by (nonlinear_arith)
        requires
            i == row * width + col,
            0 <= col < width,
            0 <= i,
            i < h2 * (2 * width),
            2 <= width,
    ;
    let r2 = row / 2;
    let rp = row % 2;
    let c2 = col / 2;
    let cp = col % 2;
    assert(row == 2 * r2 + rp && 0 <= rp < 2) by {
        lemma_fundamental_div_mod(row, 2);
        lemma_mod_bound(row, 2);
    }
    assert(col == 2 * c2 + cp && 0 <= cp < 2) by {
        lemma_fundamental_div_mod(col, 2);
        lemma_mod_bound(col, 2);
    }
    assert(0 <= r2 < h2 && 0 <= c2 < w2);
    let b = pixel_block(width, i);
    assert(b == r2 * w2 + c2);
    assert(0 <= b < w2 * h2) by (nonlinear_arith)
        requires
            b == r2 * w2 + c2,
            0 <= r2 < h2,
            0 <= c2 < w2,
    ;
    // Block b's top-left corner is pixel (2 r2) * width + 2 c2.
    assert((2 * b) / width == r2 && block_top_left(width, b) == 2 * r2 * width + 2 * c2) by {
        assert(2 * b == r2 * width + 2 * c2 && 0 <= 2 * c2 < width) by (nonlinear_arith)
            requires
                b == r2 * w2 + c2,
                width == 2 * w2,
                0 <= c2 < w2,
        ;
        lemma_fundamental_div_mod_converse(2 * b, width, r2, 2 * c2);
        assert(r2 * width + 2 * b == 2 * r2 * width + 2 * c2) by (nonlinear_arith)
            requires
                2 * b == r2 * width + 2 * c2,
        ;
    }
    let m = pixel_offset(width, i);
    assert(m == rp * 2 + cp);
    assert((rp * 2 + cp) / 2 == rp && (rp * 2 + cp) % 2 == cp) by {
        lemma_fundamental_div_mod_converse(rp * 2 + cp, 2, rp, cp);
    }
    assert(block_pixel(width, b, m) == 2 * r2 * width + 2 * c2 + cp + rp * width);
    assert(2 * r2 * width + 2 * c2 + cp + rp * width == i) by (nonlinear_arith)
        requires
            i == row * width + col,
            row == 2 * r2 + rp,
            col == 2 * c2 + cp,
    ;
}

/// Returns the four absolute pixel indices of the `i`-th 2x2 CFA block, in
/// the order top-left, top-right, bottom-left, bottom-right. Blocks number
/// the 2x2 cells of the mosaic in row-major order.
pub fn block_to_indices(width: usize, i: usize) -> (r: [usize; 4])
    requires
        2 <= width,
        width % 2 == 0,
        4 * i + width + 1 <= usize::MAX,
    ensures
        forall|m: int| 0 <= m < 4 ==> r[m] == block_pixel(width as int, i as int, m),
{
    let row_floored = 2 * i / width;
    proof {
        lemma_fundamental_div_mod(2 * i as int, width as int);
        lemma_mod_bound(2 * i as int, width as int);
        assert(row_floored * width <= 2 * i) by (nonlinear_arith)
            requires
                2 * (i as int) == (width as int) * row_floored + 2 * (i as int) % (width as int),
                0 <= 2 * (i as int) % (width as int),
        ;
    }
    let row_i = row_floored * width;
    let r = [
        row_i + 2 * i,
        row_i + 2 * i + 1,
        row_i + width + 2 * i,
        row_i + width + 2 * i + 1,
    ];
    proof {
        assert(r[0] == block_pixel(width as int, i as int, 0));
        assert(r[1] == block_pixel(width as int, i as int, 1));
        assert(r[2] == block_pixel(width as int, i as int, 2)) by {
            assert(2int % 2 == 0 && 2int / 2 == 1);
        }
        assert(r[3] == block_pixel(width as int, i as int, 3)) by {
            assert(3int % 2 == 1 && 3int / 2 == 1);
        }
    }
    r
}

/// A block of four pixel values counts as saturated when at least one of the
/// addressed values reaches the white level.
pub open spec fn indices_saturated(data: Seq<u16>, block: Seq<usize>, wl: int) -> bool {
    exists|k: int| 0 <= k < 4 && data[block[k] as int] as int >= wl
}

/// Whether the 2x2 CFA block holding pixel `i` has a sample at or above the
/// white level `wl`. Clipping is judged on the native sensor values, before
/// any exposure correction.
pub open spec fn pixel_block_saturated(data: Seq<u16>, width: int, wl: int, i: int) -> bool {
    exists|m: int|
        0 <= m < 4 && data[block_pixel(width, pixel_block(width, i), m)] as int >= wl
}

/// Returns true if one of the four pixels addressed by `block` is saturated,
/// that is, reads at or above the white level `wl`.
pub fn is_saturated(data: &Vec<u16>, block: [usize; 4], wl: u32) -> (r: bool)
    requires
        forall|k: int| 0 <= k < 4 ==> block[k] < data.len(),
    ensures
        r == indices_saturated(data@, block@, wl as int),
{
    let r = data[block[0]] as u32 >= wl || data[block[1]] as u32 >= wl
        || data[block[2]] as u32 >= wl || data[block[3]] as u32 >= wl;
    proof {
        if r {
            assert(indices_saturated(data@, block@, wl as int)) by {
                if data@[block[0] as int] as int >= wl as int {
                    assert(data@[block@[0] as int] as int >= wl as int);
                } else if data@[block[1] as int] as int >= wl as int {
                    assert(data@[block@[1] as int] as int >= wl as int);
                } else if data@[block[2] as int] as int >= wl as int {
                    assert(data@[block@[2] as int] as int >= wl as int);
                } else {
                    assert(data@[block@[3] as int] as int >= wl as int);
                }
            }
        }
    }
    r
}

} // verus!
