//! Rendering of a decoded image into an RGBA framebuffer.
//!
//! The framebuffer is a plain byte vector holding row-major RGBA pixels,
//! four bytes each, `window_width` pixels per row.  The scaled renderers
//! first fill every complete four-byte chunk with a background color, then
//! map output pixels back to source pixels by nearest-neighbor sampling.
//! Every write is guarded by the buffer's actual length, so a buffer whose
//! allocation lags behind the declared dimensions is never overrun: writes
//! that would land outside it are silently skipped.

use vstd::prelude::*;
use vstd::arithmetic::div_mod::{
    lemma_div_of0, lemma_div_pos_is_pos, lemma_fundamental_div_mod,
    lemma_fundamental_div_mod_converse, lemma_div_by_multiple, lemma_div_multiples_vanish,
    lemma_multiply_divide_le, lemma_multiply_divide_lt,
};
use vstd::pervasive::VecAdditionalExecFns;
use crate::read_crapmap::{Pixel, pixel_of};

verus! {

/// Every row of the image is as long as the first row.
pub open spec fn valid_image(img: Seq<Seq<Pixel>>) -> bool {
    forall|y: int| 0 <= y < img.len() ==> (#[trigger] img[y]).len() == img[0].len()
}

/// The four bytes of framebuffer chunk `k`, read as one RGBA pixel.
pub open spec fn frame_chunk(frame: Seq<u8>, k: int) -> Pixel {
    (frame[4 * k], frame[4 * k + 1], frame[4 * k + 2], frame[4 * k + 3])
}

/// The numerator of the aspect-ratio-preserving scale factor
/// `min(ww / iw, wh / ih)`, taken as an exact fraction.
pub open spec fn spec_scale_num(iw: int, ih: int, ww: int, wh: int) -> int {
    if ww * ih <= wh * iw {
        ww
    } else {
        wh
    }
}

/// The denominator of the scale fraction; see [`spec_scale_num`].
pub open spec fn spec_scale_den(iw: int, ih: int, ww: int, wh: int) -> int {
    if ww * ih <= wh * iw {
        iw
    } else {
        ih
    }
}

/// `floor(iw * scale)`: the width of the scaled image on screen.
pub open spec fn spec_scaled_width(iw: int, ih: int, ww: int, wh: int) -> int {
    iw * spec_scale_num(iw, ih, ww, wh) / spec_scale_den(iw, ih, ww, wh)
}

/// `floor(ih * scale)`: the height of the scaled image on screen.
pub open spec fn spec_scaled_height(iw: int, ih: int, ww: int, wh: int) -> int {
    ih * spec_scale_num(iw, ih, ww, wh) / spec_scale_den(iw, ih, ww, wh)
}

/// The left edge of the centered scaled image.
pub open spec fn spec_x_offset(iw: int, ih: int, ww: int, wh: int) -> int {
    (ww - spec_scaled_width(iw, ih, ww, wh)) / 2
}

/// The top edge of the centered scaled image.
pub open spec fn spec_y_offset(iw: int, ih: int, ww: int, wh: int) -> int {
    (wh - spec_scaled_height(iw, ih, ww, wh)) / 2
}

/// The color of output pixel `(x, y)` after compositing `img` centered and
/// scaled into a `ww` by `wh` output: inside the scaled region the
/// nearest-neighbor source pixel, outside it (or for an empty image) the
/// background color.
pub open spec fn composited_pixel(
    img: Seq<Seq<Pixel>>,
    ww: int,
    wh: int,
    background: Pixel,
    x: int,
    y: int,
) -> Pixel {
    if img.len() == 0 || img[0].len() == 0 {
        background
    } else {
        let iw = img[0].len() as int;
        let ih = img.len() as int;
        let num = spec_scale_num(iw, ih, ww, wh);
        let den = spec_scale_den(iw, ih, ww, wh);
        let xo = spec_x_offset(iw, ih, ww, wh);
        let yo = spec_y_offset(iw, ih, ww, wh);
        if xo <= x < xo + spec_scaled_width(iw, ih, ww, wh) && yo <= y < yo
            + spec_scaled_height(iw, ih, ww, wh) {
            img[(y - yo) * den / num][(x - xo) * den / num]
        } else {
            background
        }
    }
}

/// The color framebuffer chunk `k` must hold after compositing: chunks that
/// lie inside the declared `ww` by `wh` output are composited pixels, chunks
/// beyond it keep the background fill.
pub open spec fn composited_chunk(
    img: Seq<Seq<Pixel>>,
    ww: int,
    wh: int,
    background: Pixel,
    k: int,
) -> Pixel {
    if 0 <= k < ww * wh {
        composited_pixel(img, ww, wh, background, k % ww, k / ww)
    } else {
        background
    }
}

/// The full relation between a framebuffer before and after compositing:
/// every complete four-byte chunk holds the color [`composited_chunk`]
/// assigns it, and the trailing bytes of an uneven buffer are untouched.
pub open spec fn composited_frame(
    img: Seq<Seq<Pixel>>,
    ww: int,
    wh: int,
    background: Pixel,
    old_frame: Seq<u8>,
    frame: Seq<u8>,
) -> bool {
    &&& frame.len() == old_frame.len()
    &&& forall|k: int|
        0 <= k < frame.len() / 4 ==> #[trigger] frame_chunk(frame, k) == composited_chunk(
            img,
            ww,
            wh,
            background,
            k,
        )
    &&& forall|j: int| 4 * (frame.len() / 4) <= j < frame.len() ==> frame[j] == old_frame[j]
}

/// The scaled image never outgrows the output: `scaledWidth <= ww` and
/// `scaledHeight <= wh`, and neither is negative.
proof fn lemma_scaled_dims_bounded(iw: int, ih: int, ww: int, wh: int)
    requires
        1 <= iw,
        1 <= ih,
        0 <= ww,
        0 <= wh,
    ensures
        0 <= spec_scaled_width(iw, ih, ww, wh) <= ww,
        0 <= spec_scaled_height(iw, ih, ww, wh) <= wh,
{
    let num = spec_scale_num(iw, ih, ww, wh);
    let den = spec_scale_den(iw, ih, ww, wh);
    assert(iw * num >= 0 && ih * num >= 0) by (nonlinear_arith)
        requires
            iw >= 0 && ih >= 0 && num >= 0,
    ;
    lemma_div_pos_is_pos(iw * num, den);
    lemma_div_pos_is_pos(ih * num, den);
    if ww * ih <= wh * iw {
        assert(iw * ww == ww * iw) by (nonlinear_arith);
        lemma_div_multiples_vanish(ww, iw);
        assert(spec_scaled_width(iw, ih, ww, wh) == ww);
        assert(ih * ww <= iw * wh) by (nonlinear_arith)
            requires
                ww * ih <= wh * iw,
        ;
        lemma_multiply_divide_le(ih * ww, iw, wh);
    } else {
        assert(ih * wh == wh * ih) by (nonlinear_arith);
        lemma_div_multiples_vanish(wh, ih);
        assert(spec_scaled_height(iw, ih, ww, wh) == wh);
        assert(iw * wh <= ih * ww) by (nonlinear_arith)
            requires
                wh * iw <= ww * ih,
        ;
        lemma_multiply_divide_le(iw * wh, ih, ww);
    }
}

/// Nearest-neighbor sampling stays inside the source: an output column (or
/// row) `a` short of the scaled extent `d * num / den` maps to a source
/// index `a * den / num` short of `d`.
proof fn lemma_src_index_in_range(a: int, num: int, den: int, d: int)
    requires
        0 <= a,
        1 <= num,
        1 <= den,
        a < d * num / den,
    ensures
        0 <= a * den / num < d,
{
    let q = d * num / den;
    lemma_fundamental_div_mod(d * num, den);
    assert(q * den <= d * num) by (nonlinear_arith)
        requires
            d * num == den * q + (d * num) % den,
            (d * num) % den >= 0,
    ;
    assert(a * den < num * d) by (nonlinear_arith)
        requires
            a + 1 <= q,
            q * den <= d * num,
            den >= 1,
    ;
    lemma_multiply_divide_lt(a * den, num, d);
    assert(a * den >= 0) by (nonlinear_arith)
        requires
            a >= 0,
            den >= 0,
    ;
    lemma_div_pos_is_pos(a * den, num);
}

/// Compositing an empty image (zero width or zero height) leaves every
/// complete output chunk holding exactly the background color.
pub proof fn lemma_empty_image_composite(
    img: Seq<Seq<Pixel>>,
    ww: int,
    wh: int,
    background: Pixel,
    old_frame: Seq<u8>,
    frame: Seq<u8>,
)
    requires
        img.len() == 0 || img[0].len() == 0,
        composited_frame(img, ww, wh, background, old_frame, frame),
    ensures
        forall|k: int| 0 <= k < frame.len() / 4 ==> #[trigger] frame_chunk(frame, k) == background,
{
}

/// With a unit scale and an output at least as large as the image, the
/// scaled extent is exactly the image extent, and the corner of the centered
/// region shows source pixel `(0, 0)`.
pub proof fn lemma_unit_scale_identity(img: Seq<Seq<Pixel>>, ww: int, wh: int, background: Pixel)
    requires
        img.len() >= 1,
        img[0].len() >= 1,
        ww >= img[0].len(),
        wh >= img.len(),
        spec_scale_num(img[0].len() as int, img.len() as int, ww, wh) == spec_scale_den(
            img[0].len() as int,
            img.len() as int,
            ww,
            wh,
        ),
    ensures
        spec_scaled_width(img[0].len() as int, img.len() as int, ww, wh) == img[0].len(),
        spec_scaled_height(img[0].len() as int, img.len() as int, ww, wh) == img.len(),
        composited_pixel(
            img,
            ww,
            wh,
            background,
            spec_x_offset(img[0].len() as int, img.len() as int, ww, wh),
            spec_y_offset(img[0].len() as int, img.len() as int, ww, wh),
        ) == img[0][0],
{
    let iw = img[0].len() as int;
    let ih = img.len() as int;
    let num = spec_scale_num(iw, ih, ww, wh);
    lemma_div_by_multiple(iw, num);
    lemma_div_by_multiple(ih, num);
    assert(0 * num == 0) by (nonlinear_arith);
    lemma_div_of0(num);
}

/// Compositing is deterministic: two framebuffers that both stand in the
/// compositing relation to the same image, output size, background and
/// prior contents are byte-identical.
pub proof fn lemma_composite_deterministic(
    img: Seq<Seq<Pixel>>,
    ww: int,
    wh: int,
    background: Pixel,
    old_frame: Seq<u8>,
    f1: Seq<u8>,
    f2: Seq<u8>,
)
    requires
        composited_frame(img, ww, wh, background, old_frame, f1),
        composited_frame(img, ww, wh, background, old_frame, f2),
    ensures
        f1 == f2,
{
    assert forall|j: int| 0 <= j < f1.len() implies f1[j] == f2[j] by {
        let q = f1.len() / 4;
        if j < 4 * q {
            let m = j / 4;
            assert(0 <= m < q);
            assert(frame_chunk(f1, m) == frame_chunk(f2, m));
            assert(j == 4 * m + j % 4);
            if j % 4 == 0 {
                assert(f1[j] == frame_chunk(f1, m).0 && f2[j] == frame_chunk(f2, m).0);
            } else if j % 4 == 1 {
                assert(f1[j] == frame_chunk(f1, m).1 && f2[j] == frame_chunk(f2, m).1);
            } else if j % 4 == 2 {
                assert(f1[j] == frame_chunk(f1, m).2 && f2[j] == frame_chunk(f2, m).2);
            } else {
                assert(f1[j] == frame_chunk(f1, m).3 && f2[j] == frame_chunk(f2, m).3);
            }
        }
    }
    assert(f1 =~= f2);
}

/// Compositing is deterministic byte for byte on aligned buffers: when the
/// buffer length is a multiple of four, two framebuffers that stand in the
/// compositing relation to the same image, output size and background are
/// byte-identical, whatever either buffer held before.  (On an uneven
/// buffer the trailing one to three bytes keep their prior contents, so
/// there only [`lemma_composite_deterministic`] applies.)
pub proof fn lemma_composite_deterministic_aligned(
    img: Seq<Seq<Pixel>>,
    ww: int,
    wh: int,
    background: Pixel,
    old1: Seq<u8>,
    old2: Seq<u8>,
    f1: Seq<u8>,
    f2: Seq<u8>,
)
    requires
        old1.len() == old2.len(),
        old1.len() % 4 == 0,
        composited_frame(img, ww, wh, background, old1, f1),
        composited_frame(img, ww, wh, background, old2, f2),
    ensures
        f1 == f2,
{
    assert forall|j: int| 0 <= j < f1.len() implies f1[j] == f2[j] by {
        let q = f1.len() / 4;
        assert(4 * q == f1.len());
        let m = j / 4;
        assert(0 <= m < q);
        assert(frame_chunk(f1, m) == frame_chunk(f2, m));
        assert(j == 4 * m + j % 4);
        if j % 4 == 0 {
            assert(f1[j] == frame_chunk(f1, m).0 && f2[j] == frame_chunk(f2, m).0);
        } else if j % 4 == 1 {
            assert(f1[j] == frame_chunk(f1, m).1 && f2[j] == frame_chunk(f2, m).1);
        } else if j % 4 == 2 {
            assert(f1[j] == frame_chunk(f1, m).2 && f2[j] == frame_chunk(f2, m).2);
        } else {
            assert(f1[j] == frame_chunk(f1, m).3 && f2[j] == frame_chunk(f2, m).3);
        }
    }
    assert(f1 =~= f2);
}

/// Render `image_data` into the framebuffer of a `window_width` by
/// `window_height` output surface: fill the whole buffer with the
/// background color, then draw the image scaled by
/// `min(window_width / imageWidth, window_height / imageHeight)` (an exact
/// fraction, so aspect ratio is preserved), centered, sampling each output
/// pixel from its nearest source pixel.  An empty image leaves the plain
/// background fill.  Chunks beyond the buffer's actual length are skipped,
/// never written.
#[verifier::rlimit(60)]
#[verifier::loop_isolation(false)]
pub fn draw_scaled_chatgpt(
    image_data: &Vec<Vec<Pixel>>,
    frame: &mut Vec<u8>,
    window_width: u32,
    window_height: u32,
    background: [u8; 4],
)
    requires
        valid_image(image_data.deep_view()),
    ensures
        composited_frame(
            image_data.deep_view(),
            window_width as int,
            window_height as int,
            pixel_of(background@),
            old(frame)@,
            final(frame)@,
        ),
{
    let ghost img = image_data.deep_view();
    let ghost bg = pixel_of(background@);
    let frame_len: usize = frame.len();
    let chunks: usize = frame_len / 4;

    // Step 1: fill every complete four-byte chunk with the background color.
    let mut k: usize = 0;
    while k < chunks
        invariant
            k <= chunks,
            frame@.len() == frame_len,
            forall|m: int| 0 <= m < k ==> #[trigger] frame_chunk(frame@, m) == bg,
            forall|j: int| 4 * k <= j < frame_len ==> frame@[j] == old(frame)@[j],
        decreases chunks - k,
    {
        let ghost pre = frame@;
        frame.set(4 * k, background[0]);
        frame.set(4 * k + 1, background[1]);
        frame.set(4 * k + 2, background[2]);
        frame.set(4 * k + 3, background[3]);
        proof {
            assert forall|m: int| 0 <= m < k implies #[trigger] frame_chunk(frame@, m)
                == frame_chunk(pre, m) by {
                assert(frame@[4 * m] == pre[4 * m]);
                assert(frame@[4 * m + 1] == pre[4 * m + 1]);
                assert(frame@[4 * m + 2] == pre[4 * m + 2]);
                assert(frame@[4 * m + 3] == pre[4 * m + 3]);
            }
            assert(frame_chunk(frame@, k as int) == bg);
        }
        k += 1;
    }

    // Step 2: a degenerate image leaves the plain background fill.
    if image_data.len() == 0 {
        return;
    }
    let ih: usize = image_data.len();
    let iw: usize = image_data[0].len();
    if iw == 0 {
        return;
    }
    let ww: u32 = window_width;
    let wh: u32 = window_height;
    let ghost iwi = iw as int;
    let ghost ihi = ih as int;
    let ghost wwi = ww as int;
    let ghost whi = wh as int;

    // Step 3: the scale factor as an exact fraction num / den.
    proof {
        assert((ww as int) * (ih as int) <= 0xffffffff * 0xffffffffffffffff && (wh as int) * (
        iw as int) <= 0xffffffff * 0xffffffffffffffff) by (nonlinear_arith)
            requires
                ww <= 0xffffffff && wh <= 0xffffffff && iw <= 0xffffffffffffffff && ih
                    <= 0xffffffffffffffff,
        ;
    }
    let (num, den): (u32, usize) = if (ww as u128) * (ih as u128) <= (wh as u128) * (iw as u128) {
        (ww, iw)
    } else {
        (wh, ih)
    };
    proof {
        assert(num as int == spec_scale_num(iwi, ihi, wwi, whi));
        assert(den as int == spec_scale_den(iwi, ihi, wwi, whi));
        assert((iw as int) * (num as int) <= 0xffffffffffffffff * 0xffffffff) by (nonlinear_arith)
            requires
                iw <= 0xffffffffffffffff && num <= 0xffffffff,
        ;
        assert((ih as int) * (num as int) <= 0xffffffffffffffff * 0xffffffff) by (nonlinear_arith)
            requires
                ih <= 0xffffffffffffffff && num <= 0xffffffff,
        ;
        lemma_scaled_dims_bounded(iwi, ihi, wwi, whi);
    }

    // Step 4: the scaled extent, rounded down.
    let sw_wide: u128 = (iw as u128) * (num as u128) / (den as u128);
    let sh_wide: u128 = (ih as u128) * (num as u128) / (den as u128);
    proof {
        assert(sw_wide as int == spec_scaled_width(iwi, ihi, wwi, whi));
        assert(sh_wide as int == spec_scaled_height(iwi, ihi, wwi, whi));
    }
    let scaled_width: u32 = sw_wide as u32;
    let scaled_height: u32 = sh_wide as u32;

    // Step 5: offsets that center the scaled image.
    let x_offset: u32 = (ww - scaled_width) / 2;
    let y_offset: u32 = (wh - scaled_height) / 2;
    proof {
        assert(x_offset as int == spec_x_offset(iwi, ihi, wwi, whi));
        assert(y_offset as int == spec_y_offset(iwi, ihi, wwi, whi));
    }

    // Step 6: map every output pixel inside the centered region back to its
    // source pixel; everything else keeps the background fill.
    let mut y: u32 = 0;
    while y < wh
        invariant
            y <= wh,
            frame@.len() == frame_len,
            forall|m: int|
                0 <= m < chunks && m < (y as int) * wwi ==> #[trigger] frame_chunk(frame@, m)
                    == composited_chunk(img, wwi, whi, bg, m),
            forall|m: int|
                (y as int) * wwi <= m < chunks ==> #[trigger] frame_chunk(frame@, m) == bg,
            forall|j: int| 4 * chunks <= j < frame_len ==> frame@[j] == old(frame)@[j],
        decreases wh - y,
    {
        let mut x: u32 = 0;
        while x < ww
            invariant
                y < wh,
                x <= ww,
                frame@.len() == frame_len,
                forall|m: int|
                    0 <= m < chunks && m < (y as int) * wwi + x ==> #[trigger] frame_chunk(
                        frame@,
                        m,
                    ) == composited_chunk(img, wwi, whi, bg, m),
                forall|m: int|
                    (y as int) * wwi + x <= m < chunks ==> #[trigger] frame_chunk(frame@, m) == bg,
                forall|j: int| 4 * chunks <= j < frame_len ==> frame@[j] == old(frame)@[j],
            decreases ww - x,
        {
            proof {
                assert((y as int) * wwi + x < wwi * whi && (y as int) * wwi + x
                    < 0xffffffffffffffff) by (nonlinear_arith)
                    requires
                        0 <= (y as int) < whi,
                        0 <= (x as int) < wwi,
                        wwi <= 0xffffffff,
                        whi <= 0xffffffff,
                ;
            }
            let pix: u64 = (y as u64) * (ww as u64) + (x as u64);
            let ghost pre = frame@;
            if pix < (chunks as u64) {
                let kx: usize = pix as usize;
                proof {
                    assert(kx as int == pix as int);
                }
                let idx: usize = kx * 4;
                proof {
                    assert(idx as int == 4 * (pix as int));
                    lemma_fundamental_div_mod_converse(pix as int, wwi, y as int, x as int);
                }
                if x >= x_offset && x < x_offset + scaled_width && y >= y_offset && y < y_offset
                    + scaled_height {
                    let ax: u32 = x - x_offset;
                    let ay: u32 = y - y_offset;
                    proof {
                        assert(num >= 1) by {
                            if num == 0 {
                                assert(iwi * 0 == 0) by (nonlinear_arith);
                                lemma_div_of0(den as int);
                                assert(spec_scaled_width(iwi, ihi, wwi, whi) == 0);
                            }
                        }
                        assert((ax as int) * (den as int) <= 0xffffffff * 0xffffffffffffffff)
                            by (nonlinear_arith)
                            requires
                                ax <= 0xffffffff && den <= 0xffffffffffffffff,
                        ;
                        assert((ay as int) * (den as int) <= 0xffffffff * 0xffffffffffffffff)
                            by (nonlinear_arith)
                            requires
                                ay <= 0xffffffff && den <= 0xffffffffffffffff,
                        ;
                        lemma_src_index_in_range(ax as int, num as int, den as int, iwi);
                        lemma_src_index_in_range(ay as int, num as int, den as int, ihi);
                    }
                    let sx_wide: u128 = (ax as u128) * (den as u128) / (num as u128);
                    let sy_wide: u128 = (ay as u128) * (den as u128) / (num as u128);
                    let sx: usize = sx_wide as usize;
                    let sy: usize = sy_wide as usize;
                    proof {
                        assert(img[sy as int].len() == iwi);
                        assert(image_data@[sy as int]@.len() == iwi);
                    }
                    let p: Pixel = image_data[sy][sx];
                    proof {
                        assert(p == img[sy as int][sx as int]);
                        assert(composited_chunk(img, wwi, whi, bg, pix as int) == p);
                    }
                    frame.set(idx, p.0);
                    frame.set(idx + 1, p.1);
                    frame.set(idx + 2, p.2);
                    frame.set(idx + 3, p.3);
                } else {
                    proof {
                        assert(composited_chunk(img, wwi, whi, bg, pix as int) == bg);
                    }
                    frame.set(idx, background[0]);
                    frame.set(idx + 1, background[1]);
                    frame.set(idx + 2, background[2]);
                    frame.set(idx + 3, background[3]);
                }
                proof {
                    assert forall|m: int| 0 <= m < chunks && m != pix as int implies #[trigger]
                    frame_chunk(frame@, m) == frame_chunk(pre, m) by {
                        assert(frame@[4 * m] == pre[4 * m]);
                        assert(frame@[4 * m + 1] == pre[4 * m + 1]);
                        assert(frame@[4 * m + 2] == pre[4 * m + 2]);
                        assert(frame@[4 * m + 3] == pre[4 * m + 3]);
                    }
                    assert(frame_chunk(frame@, pix as int) == composited_chunk(
                        img,
                        wwi,
                        whi,
                        bg,
                        pix as int,
                    ));
                }
            }
            x += 1;
        }
        y += 1;
        proof {
            assert((y as int) * wwi == (y as int - 1) * wwi + wwi) by (nonlinear_arith);
        }
    }
    proof {
        assert(forall|m: int|
            whi * wwi <= m ==> composited_chunk(img, wwi, whi, bg, m) == bg) by {
            assert(wwi * whi == whi * wwi) by (nonlinear_arith);
        }
    }
}

/// The color framebuffer chunk `k` must hold after an unscaled draw of
/// `img` with row stride `width`: pixels of the image land at their own
/// row-major chunk, every other chunk keeps its prior contents.
pub open spec fn drawn_chunk(img: Seq<Seq<Pixel>>, width: int, old_frame: Seq<u8>, k: int) -> Pixel {
    if width > 0 && 0 <= k && k / width < img.len() && k % width < img[0].len() {
        img[k / width][k % width]
    } else {
        frame_chunk(old_frame, k)
    }
}

/// Copy `image_data` unscaled into the top-left corner of a framebuffer
/// whose rows are `width` pixels wide.  Nothing else is touched: there is
/// no background fill, and chunks beyond the buffer's actual length are
/// skipped.  Rows must fit the stride, so that distinct image pixels land
/// in distinct chunks, and the row count is bounded by 255, as the format's
/// single-byte height field guarantees of every decoded image.
#[verifier::loop_isolation(false)]
pub fn draw(image_data: &Vec<Vec<Pixel>>, frame: &mut Vec<u8>, width: u32, _height: u32)
    requires
        valid_image(image_data.deep_view()),
        image_data@.len() <= 255,
        image_data@.len() > 0 ==> image_data.deep_view()[0].len() <= width as int,
    ensures
        final(frame)@.len() == old(frame)@.len(),
        forall|k: int|
            0 <= k < final(frame)@.len() / 4 ==> #[trigger] frame_chunk(final(frame)@, k)
                == drawn_chunk(image_data.deep_view(), width as int, old(frame)@, k),
        forall|j: int|
            4 * (final(frame)@.len() / 4) <= j < final(frame)@.len() ==> final(frame)@[j] == old(
                frame,
            )@[j],
{
    let ghost img = image_data.deep_view();
    let frame_len: usize = frame.len();
    let chunks: usize = frame_len / 4;
    let ih: usize = image_data.len();
    let ghost wi = width as int;
    let mut y: usize = 0;
    while y < ih
        invariant
            y <= ih,
            frame@.len() == frame_len,
            forall|k: int|
                0 <= k < chunks ==> #[trigger] frame_chunk(frame@, k) == (if wi > 0 && k / wi < y
                    && k % wi < img[0].len() {
                    img[k / wi][k % wi]
                } else {
                    frame_chunk(old(frame)@, k)
                }),
            forall|j: int| 4 * chunks <= j < frame_len ==> frame@[j] == old(frame)@[j],
        decreases ih - y,
    {
        let row_len: usize = image_data[y].len();
        proof {
            assert(img[y as int].len() == image_data@[y as int]@.len());
            assert(img[y as int].len() == img[0].len());
        }
        let mut x: usize = 0;
        while x < row_len
            invariant
                y < ih,
                x <= row_len,
                row_len == img[0].len(),
                frame@.len() == frame_len,
                forall|k: int|
                    0 <= k < chunks ==> #[trigger] frame_chunk(frame@, k) == (if wi > 0 && ((k / wi
                        < y && k % wi < img[0].len()) || (k / wi == y && k % wi < x)) {
                        img[k / wi][k % wi]
                    } else {
                        frame_chunk(old(frame)@, k)
                    }),
                forall|j: int| 4 * chunks <= j < frame_len ==> frame@[j] == old(frame)@[j],
            decreases row_len - x,
        {
            proof {
                assert((y as int) * wi + x < 256 * 0x100000000) by (nonlinear_arith)
                    requires
                        0 <= (y as int) <= 255,
                        0 <= (x as int) < wi,
                        0 < wi <= 0xffffffff,
                ;
            }
            let pix: u64 = (y as u64) * (width as u64) + (x as u64);
            let ghost pre = frame@;
            if pix < (chunks as u64) {
                let kx: usize = pix as usize;
                proof {
                    assert(kx as int == pix as int);
                }
                let idx: usize = kx * 4;
                proof {
                    assert(idx as int == 4 * (pix as int));
                    lemma_fundamental_div_mod_converse(pix as int, wi, y as int, x as int);
                }
                let p: Pixel = image_data[y][x];
                proof {
                    assert(p == img[y as int][x as int]);
                }
                frame.set(idx, p.0);
                frame.set(idx + 1, p.1);
                frame.set(idx + 2, p.2);
                frame.set(idx + 3, p.3);
                proof {
                    assert forall|m: int| 0 <= m < chunks && m != pix as int implies #[trigger]
                    frame_chunk(frame@, m) == frame_chunk(pre, m) by {
                        assert(frame@[4 * m] == pre[4 * m]);
                        assert(frame@[4 * m + 1] == pre[4 * m + 1]);
                        assert(frame@[4 * m + 2] == pre[4 * m + 2]);
                        assert(frame@[4 * m + 3] == pre[4 * m + 3]);
                    }
                    assert(frame_chunk(frame@, pix as int) == p);
                }
            }
            proof {
                assert forall|k: int| 0 <= k < chunks implies #[trigger] frame_chunk(frame@, k)
                    == (if wi > 0 && ((k / wi < y && k % wi < img[0].len()) || (k / wi == y && k
                    % wi < x + 1)) {
                    img[k / wi][k % wi]
                } else {
                    frame_chunk(old(frame)@, k)
                }) by {
                    if wi > 0 {
                        lemma_fundamental_div_mod(k, wi);
                        assert(wi * (k / wi) == (k / wi) * wi) by (nonlinear_arith);
                    }
                }
            }
            x += 1;
        }
        y += 1;
    }
}

/// Render a possibly empty `image_data` into the framebuffer of a
/// `window_width` by `window_height` output surface.  This is the same
/// compositing as [`draw_scaled_chatgpt`]: a full background fill, then the
/// image scaled by the exact fraction
/// `min(window_width / imageWidth, window_height / imageHeight)`, centered,
/// each output pixel sampled from its nearest source pixel.  An empty image
/// (zero rows, or empty rows) stops after the fill; chunks beyond the
/// buffer's actual length are skipped, never written.
pub fn draw_scaled(
    image_data: &Vec<Vec<Pixel>>,
    frame: &mut Vec<u8>,
    window_width: u32,
    window_height: u32,
    background: [u8; 4],
)
    requires
        valid_image(image_data.deep_view()),
    ensures
        composited_frame(
            image_data.deep_view(),
            window_width as int,
            window_height as int,
            pixel_of(background@),
            old(frame)@,
            final(frame)@,
        ),
{
    draw_scaled_chatgpt(image_data, frame, window_width, window_height, background)
}

} // verus!
