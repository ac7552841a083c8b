use vstd::prelude::*;

verus! {

use vstd::arithmetic::div_mod::lemma_fundamental_div_mod;
use vstd::arithmetic::power2::pow2;
use vstd::arithmetic::power2::lemma_pow2_adds;
use vstd::arithmetic::power2::lemma_pow2_pos;
use vstd::arithmetic::power2::lemma_pow2_strictly_increases;
use vstd::arithmetic::power2::lemma2_to64;
use vstd::arithmetic::mul::lemma_mul_upper_bound;
use vstd::seq_lib::group_to_multiset_ensures;
use crate::cfa::grid_wf;
use crate::cfa::block_pixel;
use crate::cfa::pixel_block;
use crate::cfa::pixel_offset;
use crate::cfa::pixel_block_saturated;
use crate::cfa::indices_saturated;
use crate::cfa::block_to_indices;
use crate::cfa::is_saturated;
use crate::cfa::lemma_block_pixel;
use crate::cfa::lemma_pixel_block;
use crate::sample::Sample;
use crate::sample::Ratio;
use crate::sample::frac_eq;
use crate::sample::pair_of;
use crate::sample::pairs_of;
use crate::sample::sample_wf;
use crate::sample::sum_vw;
use crate::sample::sum_w;
use crate::sample::weighted_mean;
use crate::sample::lemma_sum_w_zero;
use crate::sample::lemma_sums_permutation;
use crate::sample::lemma_to_multiset_map;

/// One decoded input capture: a flat row-major buffer of unsigned sensor
/// samples, its row width, and the sensor's calibration levels. The exposure
/// offset of the capture is supplied separately, aligned by position.
#[derive(Clone)]
pub struct RawCapture {
    /// Row stride in pixels.
    pub width: usize,
    /// Flat pixel buffer, length = width times height.
    pub pixels: Vec<u16>,
    /// Sensor offset representing zero light; subtracted before scaling.
    pub black_level: u16,
    /// Value at or above which a sample counts as saturated.
    pub white_level: u32,
}

/// Why a blend failed.
#[derive(Clone, Copy, Debug, PartialEq, Eq, Structural)]
pub enum BlendError {
    /// The captures differ in shape, the buffers are not a whole grid of 2x2
    /// blocks, the capture list is empty, or the exposure list has a
    /// different length.
    ShapeMismatch,
    /// Some pixel was saturated in every capture, so its blend has no
    /// defined value.
    AllSamplesExcluded,
}

/// The exposure offset lies in the supported range of plus or minus 16
/// stops, within which every exposure factor 2^ev is exact at scale 2^16.
pub open spec fn ev_wf(ev: int) -> bool {
    -16 <= ev <= 16
}

/// Subtraction clamped at zero: never negative, never wrapping.
pub open spec fn sat_sub(a: int, b: int) -> int {
    if a >= b {
        a - b
    } else {
        0
    }
}

/// The normalized intensity of one pixel at scale 2^16: the black level is
/// subtracted (clamping at zero), the rest is divided by the exposure factor
/// 2^ev, and the black level is added back.
pub open spec fn norm_value_fx(p: int, bl: int, ev: int) -> int {
    sat_sub(p, bl) * pow2((16 - ev) as nat) + bl * pow2(16)
}

/// The blend weight of one observation at scale 2^16: the exposure factor
/// 2^ev, or zero when the observation's 2x2 CFA block is saturated.
pub open spec fn norm_weight_fx(saturated: bool, ev: int) -> int {
    if saturated {
        0
    } else {
        pow2((16 + ev) as nat) as int
    }
}

/// The (value, weight) observation that a capture contributes to pixel `i`,
/// under reference levels `bl` and `wl` and exposure offset `ev`.
pub open spec fn sample_at(c: RawCapture, bl: int, wl: int, ev: int, i: int) -> (int, int) {
    (
        norm_value_fx(c.pixels@[i] as int, bl, ev),
        norm_weight_fx(pixel_block_saturated(c.pixels@, c.width as int, wl, i), ev),
    )
}

/// The observations of pixel `i` across all captures, in capture order.
pub open spec fn samples_at(
    captures: Seq<RawCapture>,
    evs: Seq<int>,
    bl: int,
    wl: int,
    i: int,
) -> Seq<(int, int)> {
    Seq::new(captures.len(), |j: int| sample_at(captures[j], bl, wl, evs[j], i))
}

/// The capture list and the exposure list line up, are not empty, and all
/// captures share one whole-grid shape.
pub open spec fn shapes_ok(captures: Seq<RawCapture>, evs: Seq<int>) -> bool {
    &&& captures.len() > 0
    &&& evs.len() == captures.len()
    &&& grid_wf(captures[0].width as int, captures[0].pixels@.len() as int)
    &&& forall|j: int|
        0 <= j < captures.len() ==> (#[trigger] captures[j]).width == captures[0].width
            && captures[j].pixels@.len() == captures[0].pixels@.len()
}

/// Every capture's observation of pixel `i` is excluded: the pixel's 2x2 CFA
/// block is saturated in each of them.
pub open spec fn pixel_all_excluded(captures: Seq<RawCapture>, wl: int, i: int) -> bool {
    forall|j: int|
        0 <= j < captures.len() ==> pixel_block_saturated(
            (#[trigger] captures[j]).pixels@,
            captures[j].width as int,
            wl,
            i,
        )
}

/// Some pixel is saturated in every capture.
pub open spec fn some_pixel_all_excluded(captures: Seq<RawCapture>, wl: int) -> bool {
    exists|i: int|
        0 <= i < captures[0].pixels@.len() && pixel_all_excluded(captures, wl, i)
}

/// The blended output for pixel `i`, as an exact (numerator, denominator)
/// pair: the exposure-weighted mean of the observations of that pixel, with
/// the reference levels taken from the first capture.
pub open spec fn blended_at(captures: Seq<RawCapture>, evs: Seq<int>, i: int) -> (int, int) {
    let bl = captures[0].black_level as int;
    let wl = captures[0].white_level as int;
    (
        sum_vw(samples_at(captures, evs, bl, wl, i)),
        sum_w(samples_at(captures, evs, bl, wl, i)) * pow2(16),
    )
}

/// The exposure offsets as mathematical integers.
pub open spec fn evs_view(evs: Seq<i32>) -> Seq<int> {
    evs.map_values(|e: i32| e as int)
}

/// Computes 2^e.
fn pow2_u64(e: u32) -> (r: u64)
    requires
        e <= 32,
    ensures
        r == pow2(e as nat),
{
    let mut r: u64 = 1;
    let mut k: u32 = 0;
    proof {
        lemma2_to64();
    }
    while k < e
        invariant
            k <= e <= 32,
            r == pow2(k as nat),
        decreases e - k,
    {
        proof {
            lemma_pow2_adds(k as nat, 1);
            lemma2_to64();
            if k + 1 < 32 {
                lemma_pow2_strictly_increases((k + 1) as nat, 32);
            }
        }
        r = r * 2;
        k = k + 1;
    }
    r
}

/// Produces the per-pixel normalized observations of one capture, at the
/// reference exposure and calibration: for each 2x2 CFA block, saturation is
/// judged once on the native values, and each of its four pixels gets the
/// normalized value `(p - black_level)/2^ev + black_level` (the subtraction
/// clamped at zero) and weight `2^ev`, or weight zero if the block is
/// saturated. Values and weights are carried at scale 2^16.
pub fn normalize(
    capture: &RawCapture,
    black_level: u16,
    white_level: u32,
    exposure_value: i32,
) -> (r: Vec<Sample>)
    requires
        grid_wf(capture.width as int, capture.pixels@.len() as int),
        capture.pixels@.len() <= usize::MAX / 2,
        ev_wf(exposure_value as int),
    ensures
        r@.len() == capture.pixels@.len(),
        forall|i: int|
            0 <= i < r@.len() ==> pair_of(#[trigger] r@[i]) == sample_at(
                *capture,
                black_level as int,
                white_level as int,
                exposure_value as int,
                i,
            ),
        forall|i: int| 0 <= i < r@.len() ==> sample_wf(#[trigger] r@[i]),
{
    let width = capture.width;
    let n = capture.pixels.len();
    let ghost wd = width as int;
    let ghost ev = exposure_value as int;
    let ghost bl = black_level as int;
    let ghost wl = white_level as int;

    let mut result: Vec<Sample> = Vec::new();
    let mut t: usize = 0;
    while t < n
        invariant
            t <= n,
            result@.len() == t,
        decreases n - t,
    {
        result.push(Sample { value: 0, weight: 0 });
        t = t + 1;
    }

    let vscale: u64 = pow2_u64((16 - exposure_value) as u32);
    let wfactor: u64 = pow2_u64((16 + exposure_value) as u32);
    let bl_fx: u64 = (black_level as u64) * 65536;
    proof {
        lemma2_to64();
        assert(bl_fx == bl * pow2(16));
        if 16 + ev < 32 {
            lemma_pow2_strictly_increases((16 + ev) as nat, 32);
        }
        if 16 - ev < 32 {
            lemma_pow2_strictly_increases((16 - ev) as nat, 32);
        }
        assert(wfactor <= 0x100000000);
        assert(vscale <= 0x100000000);
    }

    let n_blocks = n / 4;
    let mut b: usize = 0;
    while b < n_blocks
        invariant
            b <= n_blocks,
            n_blocks == n as int / 4,
            n == capture.pixels@.len() <= usize::MAX / 2,
            width == capture.width,
            wd == width as int,
            grid_wf(wd, n as int),
            ev_wf(ev),
            ev == exposure_value as int,
            bl == black_level as int,
            wl == white_level as int,
            vscale == pow2((16 - ev) as nat),
            vscale <= 0x100000000,
            wfactor == pow2((16 + ev) as nat),
            wfactor <= 0x100000000,
            bl_fx == bl * pow2(16),
            result@.len() == n,
            forall|i: int|
                0 <= i < n && pixel_block(wd, i) < b ==> pair_of(#[trigger] result@[i])
                    == sample_at(*capture, bl, wl, ev, i) && sample_wf(result@[i]),
        decreases n_blocks - b,
    {
        proof {
            // The buffer holds at least one full double row, so the index
            // arithmetic of the block stays within usize.
            assert(n as int >= 4) by {
                lemma_fundamental_div_mod(n as int, 4);
                vstd::arithmetic::div_mod::lemma_mod_bound(n as int, 4);
            }
            assert(n as int >= 2 * wd) by {
                lemma_fundamental_div_mod(n as int, 2 * wd);
                assert(n as int == 2 * wd * (n as int / (2 * wd)));
                assert(n as int >= 2 * wd) by (nonlinear_arith)
                    requires
                        n as int == 2 * wd * (n as int / (2 * wd)),
                        n as int >= 4,
                        wd >= 2,
                ;
            }
            assert(4 * (n as int / 4) <= n) by {
                lemma_fundamental_div_mod(n as int, 4);
            }
            assert(wd <= n as int / 2);
            assert(4 * b + width + 1 <= usize::MAX);
            lemma_block_pixel(wd, n as int, b as int, 0);
            lemma_block_pixel(wd, n as int, b as int, 1);
            lemma_block_pixel(wd, n as int, b as int, 2);
            lemma_block_pixel(wd, n as int, b as int, 3);
        }
        let block = block_to_indices(width, b);
        let sat = is_saturated(&capture.pixels, block, white_level);
        let w: u64 = if sat {
            0
        } else {
            wfactor
        };

        let p0 = capture.pixels[block[0]];
        let p1 = capture.pixels[block[1]];
        let p2 = capture.pixels[block[2]];
        let p3 = capture.pixels[block[3]];
        let d0: u64 = if p0 >= black_level { (p0 - black_level) as u64 } else { 0 };
        let d1: u64 = if p1 >= black_level { (p1 - black_level) as u64 } else { 0 };
        let d2: u64 = if p2 >= black_level { (p2 - black_level) as u64 } else { 0 };
        let d3: u64 = if p3 >= black_level { (p3 - black_level) as u64 } else { 0 };
        proof {
            lemma_mul_upper_bound(d0 as int, 0xffff, vscale as int, 0x100000000);
            lemma_mul_upper_bound(d1 as int, 0xffff, vscale as int, 0x100000000);
            lemma_mul_upper_bound(d2 as int, 0xffff, vscale as int, 0x100000000);
            lemma_mul_upper_bound(d3 as int, 0xffff, vscale as int, 0x100000000);
            lemma2_to64();
        }
        let v0: u64 = d0 * vscale + bl_fx;
        let v1: u64 = d1 * vscale + bl_fx;
        let v2: u64 = d2 * vscale + bl_fx;
        let v3: u64 = d3 * vscale + bl_fx;
        result.set(block[0], Sample { value: v0, weight: w });
        result.set(block[1], Sample { value: v1, weight: w });
        result.set(block[2], Sample { value: v2, weight: w });
        result.set(block[3], Sample { value: v3, weight: w });

        proof {
            assert forall|i: int| 0 <= i < n && pixel_block(wd, i) <= b implies pair_of(
                #[trigger] result@[i],
            ) == sample_at(*capture, bl, wl, ev, i) && sample_wf(result@[i]) by {
                if pixel_block(wd, i) == b {
                    lemma_pixel_block(wd, n as int, i);
                    let m = pixel_offset(wd, i);
                    assert(i == block_pixel(wd, b as int, m));
                    assert(pixel_block_saturated(capture.pixels@, wd, wl, i)
                        == indices_saturated(capture.pixels@, block@, wl)) by {
                        if pixel_block_saturated(capture.pixels@, wd, wl, i) {
                            let mm = choose|mm: int|
                                0 <= mm < 4 && capture.pixels@[block_pixel(
                                    wd,
                                    pixel_block(wd, i),
                                    mm,
                                )] as int >= wl;
                            assert(capture.pixels@[block@[mm] as int] as int >= wl);
                        }
                        if indices_saturated(capture.pixels@, block@, wl) {
                            let kk = choose|kk: int|
                                0 <= kk < 4 && capture.pixels@[block@[kk] as int] as int >= wl;
                            assert(capture.pixels@[block_pixel(
                                wd,
                                pixel_block(wd, i),
                                kk,
                            )] as int >= wl);
                        }
                    }
                    if m == 0 {
                        assert(result@[i] == Sample { value: v0, weight: w });
                    } else if m == 1 {
                        assert(result@[i] == Sample { value: v1, weight: w });
                    } else if m == 2 {
                        assert(result@[i] == Sample { value: v2, weight: w });
                    } else {
                        assert(result@[i] == Sample { value: v3, weight: w });
                    }
                }
            }
        }
        b = b + 1;
    }
    proof {
        assert forall|i: int| 0 <= i < n implies pixel_block(wd, i) < n_blocks by {
            lemma_pixel_block(wd, n as int, i);
        }
    }
    result
}

/// Blends the captures into one higher dynamic-range buffer. The reference
/// black and white levels come from the first capture. Each capture is
/// normalized to the reference exposure, then each pixel is blended across
/// captures with the exposure-weighted mean; each output pixel is an exact
/// ratio. Fails with `ShapeMismatch` before any blending work when the
/// inputs do not line up, and with `AllSamplesExcluded` when some pixel is
/// saturated in every capture.
pub fn blend_captures(captures: &Vec<RawCapture>, exposure_values: &Vec<i32>) -> (r: Result<
    Vec<Ratio>,
    BlendError,
>)
    requires
        captures@.len() <= 0x10000,
        forall|j: int|
            0 <= j < captures@.len() ==> (#[trigger] captures@[j]).pixels@.len() <= usize::MAX / 2,
        forall|j: int| 0 <= j < exposure_values@.len() ==> ev_wf(#[trigger] exposure_values@[j] as int),
    ensures
        (r matches Err(e) && e == BlendError::ShapeMismatch) <==> !shapes_ok(
            captures@,
            evs_view(exposure_values@),
        ),
        shapes_ok(captures@, evs_view(exposure_values@)) ==> ((r matches Err(e)
            && e == BlendError::AllSamplesExcluded) <==> some_pixel_all_excluded(
            captures@,
            captures@[0].white_level as int,
        )),
        r matches Ok(out) ==> {
            &&& out@.len() == captures@[0].pixels@.len()
            &&& forall|i: int|
                0 <= i < out@.len() ==> ((#[trigger] out@[i]).num as int, out@[i].den as int)
                    == blended_at(captures@, evs_view(exposure_values@), i)
            &&& forall|i: int| 0 <= i < out@.len() ==> (#[trigger] out@[i]).den > 0
        },
{
    let ghost evs = evs_view(exposure_values@);
    let k = captures.len();
    if k == 0 || exposure_values.len() != k {
        return Err(BlendError::ShapeMismatch);
    }
    let width = captures[0].width;
    let n = captures[0].pixels.len();
    let geom_ok: bool = width >= 2 && width % 2 == 0 && (if width <= usize::MAX / 2 {
        n % (2 * width) == 0
    } else {
        n == 0
    });
    proof {
        if width > usize::MAX / 2 {
            if n > 0 {
                vstd::arithmetic::div_mod::lemma_small_mod(n as nat, (2 * width) as nat);
            } else {
                vstd::arithmetic::div_mod::lemma_small_mod(0, (2 * width) as nat);
            }
        }
        assert(geom_ok == grid_wf(width as int, n as int));
    }
    if !geom_ok {
        return Err(BlendError::ShapeMismatch);
    }
    let mut j: usize = 1;
    while j < k
        invariant
            1 <= j <= k,
            k == captures@.len(),
            width == captures@[0].width,
            n == captures@[0].pixels@.len(),
            forall|jj: int|
                0 <= jj < j ==> (#[trigger] captures@[jj]).width == width
                    && captures@[jj].pixels@.len() == n,
        decreases k - j,
    {
        if captures[j].width != width || captures[j].pixels.len() != n {
            return Err(BlendError::ShapeMismatch);
        }
        j = j + 1;
    }
    assert(shapes_ok(captures@, evs));

    let black_level = captures[0].black_level;
    let white_level = captures[0].white_level;
    let ghost bl = black_level as int;
    let ghost wl = white_level as int;

    // Phase one: normalize each capture independently into its own buffer.
    let mut results: Vec<Vec<Sample>> = Vec::new();
    let mut j: usize = 0;
    while j < k
        invariant
            j <= k,
            k == captures@.len() <= 0x10000,
            k == exposure_values@.len(),
            evs == evs_view(exposure_values@),
            shapes_ok(captures@, evs),
            width == captures@[0].width,
            n == captures@[0].pixels@.len(),
            bl == black_level as int,
            wl == white_level as int,
            bl == captures@[0].black_level as int,
            wl == captures@[0].white_level as int,
            forall|jj: int|
                0 <= jj < captures@.len() ==> (#[trigger] captures@[jj]).pixels@.len()
                    <= usize::MAX / 2,
            forall|jj: int| 0 <= jj < k ==> ev_wf(#[trigger] exposure_values@[jj] as int),
            results@.len() == j,
            forall|jj: int| 0 <= jj < j ==> (#[trigger] results@[jj])@.len() == n,
            forall|jj: int, i: int|
                0 <= jj < j && 0 <= i < n ==> pair_of(#[trigger] results@[jj]@[i]) == sample_at(
                    captures@[jj],
                    bl,
                    wl,
                    evs[jj],
                    i,
                ) && sample_wf(results@[jj]@[i]),
        decreases k - j,
    {
        let c = &captures[j];
        let ev_j = exposure_values[j];
        proof {
            assert(*c == captures@[j as int]);
            assert(ev_j as int == evs[j as int]);
        }
        let r = normalize(c, black_level, white_level, ev_j);
        proof {
            assert(r@.len() == n);
            assert forall|i: int| 0 <= i < n implies pair_of(#[trigger] r@[i]) == sample_at(
                captures@[j as int],
                bl,
                wl,
                evs[j as int],
                i,
            ) && sample_wf(r@[i]) by {
                assert(pair_of(r@[i]) == sample_at(
                    *c,
                    black_level as int,
                    white_level as int,
                    ev_j as int,
                    i,
                ));
            }
        }
        results.push(r);
        proof {
            assert forall|i: int| 0 <= i < n implies pair_of(#[trigger] results@[j as int]@[i])
                == sample_at(captures@[j as int], bl, wl, evs[j as int], i) && sample_wf(
                results@[j as int]@[i],
            ) by {
                assert(results@[j as int]@[i] == r@[i]);
            }
        }
        j = j + 1;
    }

    // Phase two: blend each pixel independently across the captures.
    let mut out: Vec<Ratio> = Vec::new();
    let mut i: usize = 0;
    while i < n
        invariant
            i <= n,
            k == captures@.len() <= 0x10000,
            k == exposure_values@.len(),
            k >= 1,
            evs == evs_view(exposure_values@),
            shapes_ok(captures@, evs),
            n == captures@[0].pixels@.len(),
            bl == captures@[0].black_level as int,
            wl == captures@[0].white_level as int,
            results@.len() == k,
            forall|jj: int| 0 <= jj < k ==> (#[trigger] results@[jj])@.len() == n,
            forall|jj: int, ii: int|
                0 <= jj < k && 0 <= ii < n ==> pair_of(#[trigger] results@[jj]@[ii]) == sample_at(
                    captures@[jj],
                    bl,
                    wl,
                    evs[jj],
                    ii,
                ) && sample_wf(results@[jj]@[ii]),
            out@.len() == i,
            forall|ii: int|
                0 <= ii < i ==> ((#[trigger] out@[ii]).num as int, out@[ii].den as int)
                    == blended_at(captures@, evs, ii),
            forall|ii: int| 0 <= ii < i ==> (#[trigger] out@[ii]).den > 0,
            forall|ii: int| 0 <= ii < i ==> !pixel_all_excluded(captures@, wl, ii),
        decreases n - i,
    {
        let mut column: Vec<Sample> = Vec::new();
        let mut j: usize = 0;
        while j < k
            invariant
                j <= k,
                i < n,
                k == captures@.len(),
                results@.len() == k,
                forall|jj: int| 0 <= jj < k ==> (#[trigger] results@[jj])@.len() == n,
                column@.len() == j,
                forall|jj: int| 0 <= jj < j ==> #[trigger] column@[jj] == results@[jj]@[i as int],
            decreases k - j,
        {
            column.push(results[j][i]);
            j = j + 1;
        }
        proof {
            assert(pairs_of(column@) =~= samples_at(captures@, evs, bl, wl, i as int));
        }
        match weighted_mean(&column) {
            Some(q) => {
                proof {
                    let s = samples_at(captures@, evs, bl, wl, i as int);
                    assert(((q.num as int), (q.den as int)) == blended_at(captures@, evs, i as int));
                    assert forall|jj: int| 0 <= jj < s.len() implies s[jj].1 >= 0 by {
                        lemma_pow2_pos((16 + evs[jj]) as nat);
                    }
                    lemma_sum_w_zero(s);
                    let jj = choose|jj: int| 0 <= jj < s.len() && s[jj].1 != 0;
                    assert(!pixel_block_saturated(
                        captures@[jj].pixels@,
                        captures@[jj].width as int,
                        wl,
                        i as int,
                    ));
                    assert(!pixel_all_excluded(captures@, wl, i as int));
                }
                out.push(q);
            },
            None => {
                proof {
                    let s = samples_at(captures@, evs, bl, wl, i as int);
                    assert forall|jj: int| 0 <= jj < s.len() implies s[jj].1 >= 0 by {
                        lemma_pow2_pos((16 + evs[jj]) as nat);
                    }
                    lemma_sum_w_zero(s);
                    assert forall|jj: int| 0 <= jj < captures@.len() implies pixel_block_saturated(
                        (#[trigger] captures@[jj]).pixels@,
                        captures@[jj].width as int,
                        wl,
                        i as int,
                    ) by {
                        assert(s[jj].1 == 0);
                        lemma_pow2_pos((16 + evs[jj]) as nat);
                    }
                    assert(pixel_all_excluded(captures@, wl, i as int));
                }
                return Err(BlendError::AllSamplesExcluded);
            },
        }
        i = i + 1;
    }
    proof {
        assert(!some_pixel_all_excluded(captures@, wl));
    }
    Ok(out)
}

/// At the reference exposure, normalization is the identity: with an
/// exposure offset of zero and a pixel that is neither below the black level
/// nor in a saturated block, the observation carries the original pixel
/// value (at scale 2^16) with weight one (at scale 2^16).
pub proof fn lemma_normalize_identity(c: RawCapture, bl: int, wl: int, i: int)
    requires
        0 <= i < c.pixels@.len(),
        0 <= bl <= c.pixels@[i] as int,
        !pixel_block_saturated(c.pixels@, c.width as int, wl, i),
    ensures
        sample_at(c, bl, wl, 0, i).0 == c.pixels@[i] as int * pow2(16),
        sample_at(c, bl, wl, 0, i).1 == pow2(16),
{
    let p = c.pixels@[i] as int;
    assert((p - bl) * pow2(16) + bl * pow2(16) == p * pow2(16)) by (nonlinear_arith);
}

/// A pixel at or below the black level is corrected to exactly the black
/// level, whatever the exposure offset: the saturating subtraction clamps at
/// zero and never wraps.
pub proof fn lemma_black_level_floor(c: RawCapture, bl: int, wl: int, ev: int, i: int)
    requires
        0 <= i < c.pixels@.len(),
        c.pixels@[i] as int <= bl,
    ensures
        sat_sub(c.pixels@[i] as int, bl) == 0,
        sample_at(c, bl, wl, ev, i).0 == bl * pow2(16),
{
}

/// Blending two captures where the first one's observation of pixel `i` is
/// excluded (its 2x2 CFA block is saturated) yields exactly the second
/// capture's normalized value for that pixel: the excluded observation
/// contributes to neither the numerator nor the denominator.
pub proof fn lemma_blend_two_excluded_first(captures: Seq<RawCapture>, evs: Seq<int>, i: int)
    requires
        shapes_ok(captures, evs),
        captures.len() == 2,
        ev_wf(evs[0]),
        ev_wf(evs[1]),
        pixel_block_saturated(
            captures[0].pixels@,
            captures[0].width as int,
            captures[0].white_level as int,
            i,
        ),
        !pixel_block_saturated(
            captures[1].pixels@,
            captures[1].width as int,
            captures[0].white_level as int,
            i,
        ),
    ensures
        frac_eq(
            blended_at(captures, evs, i).0,
            blended_at(captures, evs, i).1,
            sample_at(
                captures[1],
                captures[0].black_level as int,
                captures[0].white_level as int,
                evs[1],
                i,
            ).0,
            pow2(16) as int,
        ),
{
    let bl = captures[0].black_level as int;
    let wl = captures[0].white_level as int;
    let x = sample_at(captures[0], bl, wl, evs[0], i);
    let y = sample_at(captures[1], bl, wl, evs[1], i);
    assert(samples_at(captures, evs, bl, wl, i) =~= seq![x, y]);
    assert(y.1 > 0) by {
        lemma_pow2_pos((16 + evs[1]) as nat);
    }
    crate::sample::lemma_blend_excluded(x, y);
}

/// Blending a one-element capture list returns exactly that capture's
/// normalized value for every pixel whose observation is not excluded.
pub proof fn lemma_blend_single_capture(captures: Seq<RawCapture>, evs: Seq<int>, i: int)
    requires
        shapes_ok(captures, evs),
        captures.len() == 1,
        ev_wf(evs[0]),
        !pixel_block_saturated(
            captures[0].pixels@,
            captures[0].width as int,
            captures[0].white_level as int,
            i,
        ),
    ensures
        frac_eq(
            blended_at(captures, evs, i).0,
            blended_at(captures, evs, i).1,
            sample_at(
                captures[0],
                captures[0].black_level as int,
                captures[0].white_level as int,
                evs[0],
                i,
            ).0,
            pow2(16) as int,
        ),
{
    let bl = captures[0].black_level as int;
    let wl = captures[0].white_level as int;
    let x = sample_at(captures[0], bl, wl, evs[0], i);
    assert(samples_at(captures, evs, bl, wl, i) =~= seq![x]);
    assert(x.1 > 0) by {
        lemma_pow2_pos((16 + evs[0]) as nat);
    }
    crate::sample::lemma_blend_single(x);
}

/// The captures paired with their exposure offsets, in order.
pub open spec fn capture_evs(captures: Seq<RawCapture>, evs: Seq<int>) -> Seq<(RawCapture, int)> {
    Seq::new(captures.len(), |j: int| (captures[j], evs[j]))
}

/// Blending does not depend on the order of the captures: two capture lists
/// that pair the same captures with the same exposure offsets (in any order)
/// blend every pixel to the identical exact ratio. The reference levels must
/// be shared, as the blend takes them from the first capture.
pub proof fn lemma_blend_order_independent(
    c1: Seq<RawCapture>,
    e1: Seq<int>,
    c2: Seq<RawCapture>,
    e2: Seq<int>,
    i: int,
)
    requires
        shapes_ok(c1, e1),
        shapes_ok(c2, e2),
        forall|j: int|
            0 <= j < c1.len() ==> (#[trigger] c1[j]).black_level == c1[0].black_level
                && c1[j].white_level == c1[0].white_level,
        capture_evs(c1, e1).to_multiset() == capture_evs(c2, e2).to_multiset(),
    ensures
        blended_at(c1, e1, i) == blended_at(c2, e2, i),
{
    broadcast use group_to_multiset_ensures;

    let z1 = capture_evs(c1, e1);
    let z2 = capture_evs(c2, e2);
    let bl = c1[0].black_level as int;
    let wl = c1[0].white_level as int;
    // Every capture of the second list occurs in the first, so it shares the
    // reference levels.
    assert forall|j: int| 0 <= j < c2.len() implies (#[trigger] c2[j]).black_level
        == c1[0].black_level && c2[j].white_level == c1[0].white_level by {
        assert(z2[j] == (c2[j], e2[j]));
        assert(z2.contains((c2[j], e2[j])));
        assert(z1.to_multiset().count((c2[j], e2[j])) > 0);
        assert(z1.contains((c2[j], e2[j])));
        let jj = choose|jj: int| 0 <= jj < z1.len() && z1[jj] == (c2[j], e2[j]);
        assert(c1[jj] == c2[j]);
    }
    let g = |pr: (RawCapture, int)| sample_at(pr.0, bl, wl, pr.1, i);
    assert(samples_at(c1, e1, bl, wl, i) =~= z1.map_values(g));
    assert(samples_at(c2, e2, bl, wl, i) =~= z2.map_values(g));
    lemma_to_multiset_map(z1, z2, g);
    lemma_sums_permutation(samples_at(c1, e1, bl, wl, i), samples_at(c2, e2, bl, wl, i));
}

} // verus!
