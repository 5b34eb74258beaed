use vstd::prelude::*;
use vstd::arithmetic::div_mod::{lemma_fundamental_div_mod, lemma_fundamental_div_mod_converse};

verus! {

/// Text color `(r, g, b)` scaled by a glyph coverage `alpha` (0 to 255), as
/// a pixel value: each channel times `alpha / 255`, rounded down, shifted to
/// its place and or-ed together.
pub open spec fn spec_text_pixel(r: u32, g: u32, b: u32, alpha: u8) -> u32 {
    (((r * alpha / 0xFF) as u32) << 16u32) | (((g * alpha / 0xFF) as u32) << 8u32) | ((b * alpha / 0xFF) as u32)
}

/// Scaling of the text color by one coverage value does not overflow.
pub open spec fn no_overflow(r: u32, g: u32, b: u32, alpha: u8) -> bool {
    r * alpha <= u32::MAX && g * alpha <= u32::MAX && b * alpha <= u32::MAX
}

proof fn lemma_scaled_channel(c: u32, alpha: u8)
    requires
        c < 256,
    ensures
        0 <= c * alpha / 0xFF < 256,
        (c * alpha / 0xFF) as u32 == c * alpha / 0xFF,
{
    assert(0 <= c * alpha <= 255 * 255) by (nonlinear_arith)
        requires c < 256, alpha < 256;
    assert(c * alpha / 0xFF <= 255) by (nonlinear_arith)
        requires 0 <= c * alpha <= 255 * 255;
    assert(c * alpha / 0xFF >= 0) by (nonlinear_arith)
        requires 0 <= c * alpha;
}

/// Each channel of a text pixel is the text color's channel scaled by the
/// glyph coverage: channel times `alpha`, divided by 255 and rounded down,
/// in its own byte (red high, blue low), nothing above. So full coverage
/// gives the text color, no coverage gives black, and every channel grows
/// with the coverage.
pub proof fn law_text_pixel_channels(r: u32, g: u32, b: u32, alpha: u8)
    requires
        r < 256,
        g < 256,
        b < 256,
    ensures
        (spec_text_pixel(r, g, b, alpha) >> 16u32) & 0xFF == r * alpha / 255,
        (spec_text_pixel(r, g, b, alpha) >> 8u32) & 0xFF == g * alpha / 255,
        spec_text_pixel(r, g, b, alpha) & 0xFF == b * alpha / 255,
        spec_text_pixel(r, g, b, alpha) < 0x100_0000,
{
    lemma_scaled_channel(r, alpha);
    lemma_scaled_channel(g, alpha);
    lemma_scaled_channel(b, alpha);
    let qr = (r * alpha / 0xFF) as u32;
    let qg = (g * alpha / 0xFF) as u32;
    let qb = (b * alpha / 0xFF) as u32;
    assert(((qr << 16u32) | (qg << 8u32) | qb) >> 16u32 & 0xFF == qr
        && ((qr << 16u32) | (qg << 8u32) | qb) >> 8u32 & 0xFF == qg
        && ((qr << 16u32) | (qg << 8u32) | qb) & 0xFF == qb
        && ((qr << 16u32) | (qg << 8u32) | qb) < 0x100_0000) by (bit_vector)
        requires
            qr < 256,
            qg < 256,
            qb < 256,
    ;
}

pub fn text_pixel(r: u32, g: u32, b: u32, alpha: u8) -> (v: u32)
    requires
        no_overflow(r, g, b, alpha),
    ensures
        v == spec_text_pixel(r, g, b, alpha),
        r < 256 && g < 256 && b < 256 ==> {
            &&& (v >> 16u32) & 0xFF == r * alpha / 255
            &&& (v >> 8u32) & 0xFF == g * alpha / 255
            &&& v & 0xFF == b * alpha / 255
        },
{
    proof {
        if r < 256 && g < 256 && b < 256 {
            law_text_pixel_channels(r, g, b, alpha);
        }
    }
    let a = alpha as u32;
    let red = r * a / 0xFF;
    let green = g * a / 0xFF;
    let blue = b * a / 0xFF;
    (red << 16) | (green << 8) | blue
}

/// Top row of a glyph drawn at height `y`: its baseline row `y` minus its
/// height, or row 0 when it would start above the buffer.
pub open spec fn glyph_top(y: usize, glyph_height: usize) -> int {
    if y > glyph_height {
        y - glyph_height
    } else {
        0
    }
}

/// Coverage index of the glyph bitmap that lands on buffer pixel `k`, for a
/// glyph of `glyph_width` columns whose left column is `x`.
pub open spec fn glyph_source(k: int, width: int, x: int, top: int, glyph_width: int) -> int {
    (k / width - top) * glyph_width + (k % width - x)
}

/// Buffer pixel `k` (of a `width` x `height` buffer) is covered by the glyph.
pub open spec fn glyph_covers(k: int, width: int, height: int, x: int, top: int, glyph_width: int, len: int) -> bool {
    &&& 0 <= k < width * height
    &&& x <= k % width < x + glyph_width
    &&& top <= k / width
    &&& glyph_source(k, width, x, top, glyph_width) < len
}

/// Glyph bitmap entry `i` lands inside the buffer.
pub open spec fn glyph_in_buffer(i: int, width: int, height: int, x: int, top: int, glyph_width: int) -> bool {
    x + i % glyph_width < width && top + i / glyph_width < height
}

/// Bitmap entry `i` can be drawn without a fault: its buffer column and row
/// fit in a `usize`, and if it lands inside the buffer, its buffer index
/// fits, its color does not overflow, and, where that color is not 0 and so
/// is written, the index lies within the `len` pixels of the buffer.
pub open spec fn glyph_entry_fits(
    i: int,
    alpha: u8,
    len: int,
    width: int,
    height: int,
    x: int,
    top: int,
    glyph_width: int,
    r: u32,
    g: u32,
    b: u32,
) -> bool {
    let col = x + i % glyph_width;
    let row = top + i / glyph_width;
    &&& col <= usize::MAX
    &&& row <= usize::MAX
    &&& glyph_in_buffer(i, width, height, x, top, glyph_width) ==> {
        &&& row * width + col <= usize::MAX
        &&& no_overflow(r, g, b, alpha)
        &&& spec_text_pixel(r, g, b, alpha) != 0 ==> row * width + col < len
    }
}

/// Draws one rasterised glyph (`bitmap`: coverage values, `glyph_width`
/// per row) into a `width` x `height` buffer with its left column at `x`
/// and its bottom at row `y`, in the text color `(r, g, b)`: each covered
/// pixel inside the buffer whose color is not 0 is overwritten with it.
pub fn blit_glyph(
    buffer: &mut [u32],
    width: usize,
    height: usize,
    bitmap: &[u8],
    glyph_width: usize,
    glyph_height: usize,
    x: usize,
    y: usize,
    r: u32,
    g: u32,
    b: u32,
)
    requires
        glyph_width > 0 || bitmap@.len() == 0,
        forall|i: int|
            0 <= i < bitmap@.len() ==> glyph_entry_fits(
                i, #[trigger] bitmap@[i], old(buffer)@.len() as int, width as int, height as int, x as int,
                glyph_top(y, glyph_height), glyph_width as int, r, g, b,
            ),
    ensures
        final(buffer)@.len() == old(buffer)@.len(),
        forall|k: int|
            0 <= k < old(buffer)@.len() ==> #[trigger] final(buffer)@[k] == {
                let i = glyph_source(k, width as int, x as int, glyph_top(y, glyph_height), glyph_width as int);
                if glyph_covers(k, width as int, height as int, x as int, glyph_top(y, glyph_height), glyph_width as int, bitmap@.len() as int)
                    && spec_text_pixel(r, g, b, bitmap@[i]) != 0 {
                    spec_text_pixel(r, g, b, bitmap@[i])
                } else {
                    old(buffer)@[k]
                }
            },
{
    let n = bitmap.len();
    let buf_len = buffer.len();
    let top: usize = if y > glyph_height { y - glyph_height } else { 0 };
    let ghost old_buf = buffer@;
    let ghost w = width as int;
    let ghost gw = glyph_width as int;
    let ghost t = top as int;
    let mut i: usize = 0;
    while i < n
        invariant
            n == bitmap@.len(),
            i <= n,
            buffer@.len() == old_buf.len(),
            buf_len == old_buf.len(),
            glyph_width > 0 || n == 0,
            top == glyph_top(y, glyph_height),
            w == width,
            gw == glyph_width,
            t == top,
            forall|j: int|
                0 <= j < n ==> glyph_entry_fits(
                    j, #[trigger] bitmap@[j], old_buf.len() as int, w, height as int, x as int, t, gw, r, g, b,
                ),
            forall|k: int|
                0 <= k < old_buf.len() ==> #[trigger] buffer@[k] == {
                    let j = glyph_source(k, w, x as int, t, gw);
                    if glyph_covers(k, w, height as int, x as int, t, gw, i as int)
                        && spec_text_pixel(r, g, b, bitmap@[j]) != 0 {
                        spec_text_pixel(r, g, b, bitmap@[j])
                    } else {
                        old_buf[k]
                    }
                },
        decreases n - i,
    {
        let alpha = bitmap[i];
        let bitmap_x = i % glyph_width;
        let bitmap_y = i / glyph_width;
        proof {
            lemma_fundamental_div_mod(i as int, gw);
            vstd::arithmetic::div_mod::lemma_div_is_ordered_by_denominator(i as int, 1, gw);
            assert(i as int / 1 == i);
        }
        proof {
            assert(glyph_entry_fits(i as int, bitmap@[i as int], old_buf.len() as int, w, height as int, x as int, t, gw, r, g, b));
        }
        let buffer_x = x + bitmap_x;
        let buffer_y = top + bitmap_y;
        let ghost before = buffer@;
        if buffer_x < width && buffer_y < height {
            proof {
                assert(buffer_y * width + buffer_x < width * height) by (nonlinear_arith)
                    requires buffer_y < height, buffer_x < width;
                assert(0 <= buffer_y * width) by (nonlinear_arith);
            }
            let buffer_index = buffer_y * width + buffer_x;
            let v = text_pixel(r, g, b, alpha);
            if v != 0 {
                buffer[buffer_index] = v;
            }
            proof {
                lemma_fundamental_div_mod_converse(buffer_index as int, w, buffer_y as int, buffer_x as int);
                assert(glyph_source(buffer_index as int, w, x as int, t, gw) == i) by {
                    assert(gw * bitmap_y + bitmap_x == i);
                    assert(gw * bitmap_y == bitmap_y * gw) by (nonlinear_arith);
                }
                assert forall|k: int| 0 <= k < old_buf.len() implies #[trigger] buffer@[k] == {
                    let j = glyph_source(k, w, x as int, t, gw);
                    if glyph_covers(k, w, height as int, x as int, t, gw, i + 1)
                        && spec_text_pixel(r, g, b, bitmap@[j]) != 0 {
                        spec_text_pixel(r, g, b, bitmap@[j])
                    } else {
                        old_buf[k]
                    }
                } by {
                    if k != buffer_index && glyph_covers(k, w, height as int, x as int, t, gw, i + 1) {
                        let j = glyph_source(k, w, x as int, t, gw);
                        if j == i {
                            lemma_fundamental_div_mod(k, w);
                            lemma_fundamental_div_mod_converse(i as int, gw, k / w - t, k % w - x);
                            assert(k == w * (k / w) + k % w);
                            assert(k / w == buffer_y);
                            assert(k % w == buffer_x);
                            assert(w * buffer_y == buffer_y * w) by (nonlinear_arith);
                            assert(false);
                        }
                    }
                }
            }
        } else {
            proof {
                assert forall|k: int| 0 <= k < old_buf.len() implies #[trigger] buffer@[k] == {
                    let j = glyph_source(k, w, x as int, t, gw);
                    if glyph_covers(k, w, height as int, x as int, t, gw, i + 1)
                        && spec_text_pixel(r, g, b, bitmap@[j]) != 0 {
                        spec_text_pixel(r, g, b, bitmap@[j])
                    } else {
                        old_buf[k]
                    }
                } by {
                    if glyph_covers(k, w, height as int, x as int, t, gw, i + 1) {
                        let j = glyph_source(k, w, x as int, t, gw);
                        if j == i {
                            lemma_fundamental_div_mod(k, w);
                            lemma_fundamental_div_mod_converse(i as int, gw, k / w - t, k % w - x);
                            assert(k < w * height);
                            assert(k / w < height) by {
                                vstd::arithmetic::div_mod::lemma_multiply_divide_lt(k, w, height as int);
                            }
                            assert(k % w < w) by {
                                vstd::arithmetic::div_mod::lemma_mod_pos_bound(k, w);
                            }
                            assert(false);
                        }
                    }
                }
            }
        }
        i = i + 1;
    }
}

/// Whether `blit_glyph` can draw this glyph into a buffer of `buffer_len`
/// pixels: every bitmap entry fits (see `glyph_entry_fits`).
pub fn glyph_fits(
    buffer_len: usize,
    width: usize,
    height: usize,
    bitmap: &[u8],
    glyph_width: usize,
    glyph_height: usize,
    x: usize,
    y: usize,
    r: u32,
    g: u32,
    b: u32,
) -> (ok: bool)
    ensures
        ok == ((glyph_width > 0 || bitmap@.len() == 0) && forall|i: int|
            0 <= i < bitmap@.len() ==> glyph_entry_fits(
                i, #[trigger] bitmap@[i], buffer_len as int, width as int, height as int, x as int,
                glyph_top(y, glyph_height), glyph_width as int, r, g, b,
            )),
{
    let n = bitmap.len();
    if n == 0 {
        return true;
    }
    if glyph_width == 0 {
        return false;
    }
    let top: usize = if y > glyph_height { y - glyph_height } else { 0 };
    let ghost t = top as int;
    let mut i: usize = 0;
    while i < n
        invariant
            n == bitmap@.len(),
            i <= n,
            glyph_width > 0,
            t == top,
            top == glyph_top(y, glyph_height),
            forall|j: int|
                0 <= j < i ==> glyph_entry_fits(
                    j, #[trigger] bitmap@[j], buffer_len as int, width as int, height as int, x as int, t,
                    glyph_width as int, r, g, b,
                ),
        decreases n - i,
    {
        let alpha = bitmap[i];
        let ghost fits = glyph_entry_fits(
            i as int, alpha, buffer_len as int, width as int, height as int, x as int, t, glyph_width as int, r, g, b,
        );
        let bitmap_x = i % glyph_width;
        let bitmap_y = i / glyph_width;
        if bitmap_x > usize::MAX - x || bitmap_y > usize::MAX - top {
            assert(!fits);
            return false;
        }
        let col = x + bitmap_x;
        let row = top + bitmap_y;
        if col < width && row < height {
            let index = match row.checked_mul(width) {
                Some(m) => m.checked_add(col),
                None => None,
            };
            match index {
                None => {
                    proof {
                        if row * width <= usize::MAX {
                            assert(row * width + col > usize::MAX);
                        }
                        assert(row * width + col > usize::MAX) by (nonlinear_arith)
                            requires row * width > usize::MAX || row * width + col > usize::MAX, col >= 0;
                    }
                    assert(!fits);
                    return false;
                },
                Some(index) => {
                    let a = alpha as u32;
                    if r.checked_mul(a).is_none() || g.checked_mul(a).is_none() || b.checked_mul(a).is_none() {
                        assert(!fits);
                        return false;
                    }
                    let v = text_pixel(r, g, b, alpha);
                    if v != 0 && index >= buffer_len {
                        assert(!fits);
                        return false;
                    }
                },
            }
        }
        assert(fits);
        i = i + 1;
    }
    true
}

} // verus!
