//! Compositing of coloured coverage rectangles into a packed RGBA surface.
use vstd::prelude::*;

verus! {

/// Width and height of a pixel area, in pixels.
#[derive(Clone, Copy, Debug, PartialEq, Eq, Structural)]
pub struct Canvas {
    pub w: i32,
    pub h: i32,
}

/// Position of a rectangle's top-left corner on the surface.
#[derive(Clone, Copy, Debug, PartialEq, Eq, Structural)]
pub struct Offset {
    pub x: i32,
    pub y: i32,
}

/// The text engine packs colours as `0xAARRGGBB`; the surface stores
/// `0xAABBGGRR`, so the red and blue bytes trade places.
pub open spec fn swap_spec(c: u32) -> u32 {
    (c & 0xFF00FF00) | ((c & 0x00FF0000) >> 16) | ((c & 0x000000FF) << 16)
}

/// Alpha byte of a packed colour.
pub open spec fn alpha_of(c: u32) -> u32 {
    c >> 24
}

/// Byte `k` of a packed pixel, counted from the least significant one.
pub open spec fn channel(p: u32, k: int) -> u32 {
    if k == 0 {
        p & 0xFF
    } else if k == 1 {
        (p >> 8) & 0xFF
    } else if k == 2 {
        (p >> 16) & 0xFF
    } else {
        p >> 24
    }
}

/// Blend of a partly transparent `color` over a painted pixel: the red/blue
/// pair and the alpha/green pair are each mixed as `dst * (255 - a) + src * a`
/// and divided by 256; in the alpha byte the source counts as 256.
pub open spec fn blend_spec(current: u32, color: u32) -> u32 {
    let a = alpha_of(color) as int;
    let n = 255 - a;
    let rb = ((n * (current & 0x00FF00FF) + a * (color & 0x00FF00FF)) as u32) >> 8;
    let ag = (n * ((current & 0xFF00FF00) >> 8) + a * (0x01000000u32 | ((color & 0x0000FF00) >> 8))) as u32;
    (rb & 0x00FF00FF) | (ag & 0xFF00FF00)
}

/// New value of a pixel holding `current` once `color` (surface order) is
/// drawn over it.
pub open spec fn paint(current: u32, color: u32) -> u32 {
    let a = alpha_of(color);
    if a == 0 {
        current
    } else if a == 255 {
        color
    } else if current & 0xFF000000 == 0 {
        color
    } else {
        blend_spec(current, color)
    }
}

/// Whether pixel `(x, y)` lies in the rectangle of size `size` at `origin`.
pub open spec fn in_rect(x: int, y: int, size: Canvas, origin: Offset) -> bool {
    origin.x <= x < origin.x + size.w && origin.y <= y < origin.y + size.h
}

/// A surface of `canvas` size fits in a buffer of `len` pixels, row-major.
pub open spec fn fits(canvas: Canvas, len: int) -> bool {
    canvas.w >= 0 && canvas.h >= 0 && len == canvas.w * canvas.h
}

/// The surface `buf` after a rectangle of `native` colour is drawn on it;
/// pixels outside the rectangle keep their value.
pub open spec fn drawn(buf: Seq<u32>, canvas: Canvas, size: Canvas, origin: Offset, native: u32) -> Seq<u32> {
    Seq::new(
        buf.len(),
        |i: int|
            if canvas.w > 0 && in_rect(i % (canvas.w as int), i / (canvas.w as int), size, origin) {
                paint(buf[i], swap_spec(native))
            } else {
                buf[i]
            },
    )
}

/// Reorders a colour of the text engine into the surface's byte order.
pub fn swap_red_blue(c: u32) -> (r: u32)
    ensures
        r == swap_spec(c),
{
    // Grab alpha channel and green channel
    let mut color = c & 0xFF00FF00;
    // Shift red channel
    color |= (c & 0x00FF0000) >> 16;
    // Shift blue channel
    color |= (c & 0x000000FF) << 16;
    color
}

/// Mixes a partly transparent `color` into an already painted pixel.
pub fn blend_pixel(current: u32, color: u32) -> (r: u32)
    requires
        0 < alpha_of(color) < 255,
    ensures
        r == blend_spec(current, color),
{
    let alpha = color >> 24;
    let n_alpha = 255 - alpha;
    let c_rb = current & 0x00FF00FF;
    let s_rb = color & 0x00FF00FF;
    let c_ag = (current & 0xFF00FF00) >> 8;
    let s_ag = 0x01000000u32 | ((color & 0x0000FF00) >> 8);
    assert(c_rb <= 0x00FF00FF && s_rb <= 0x00FF00FF) by (bit_vector)
        requires
            c_rb == current & 0x00FF00FF,
            s_rb == color & 0x00FF00FF,
    ;
    assert(c_ag <= 0x00FF00FF && s_ag <= 0x010000FF) by (bit_vector)
        requires
            c_ag == (current & 0xFF00FF00) >> 8,
            s_ag == 0x01000000u32 | ((color & 0x0000FF00) >> 8),
    ;
    assert(n_alpha * c_rb + alpha * s_rb <= 255 * 0x00FF00FF) by (nonlinear_arith)
        requires
            n_alpha + alpha == 255,
            c_rb <= 0x00FF00FF,
            s_rb <= 0x00FF00FF,
    ;
    assert(n_alpha * c_ag + alpha * s_ag <= 255 * 0x010000FF) by (nonlinear_arith)
        requires
            n_alpha + alpha == 255,
            c_ag <= 0x010000FF,
            s_ag <= 0x010000FF,
    ;
    let rb = ((n_alpha * c_rb) + (alpha * s_rb)) >> 8;
    let ag = (n_alpha * c_ag) + (alpha * s_ag);
    (rb & 0x00FF00FF) | (ag & 0xFF00FF00)
}

/// Invariant of the drawing loops: the pixels of the rectangle that come
/// before row `y`, or in row `y` before column `x`, are painted; all others
/// hold their old value.
pub open spec fn painted_before(
    buf: Seq<u32>,
    old_buf: Seq<u32>,
    canvas: Canvas,
    size: Canvas,
    origin: Offset,
    color: u32,
    x: int,
    y: int,
) -> bool {
    &&& buf.len() == old_buf.len()
    &&& forall|i: int|
        0 <= i < buf.len() ==> #[trigger] buf[i] == (if in_rect(i % (canvas.w as int), i / (canvas.w as int), size, origin)
            && (i / (canvas.w as int) < y || (i / (canvas.w as int) == y && i % (canvas.w as int) < x)) {
            paint(old_buf[i], color)
        } else {
            old_buf[i]
        })
}

proof fn lemma_row_col(i: int, w: int, x: int, y: int)
    requires
        w > 0,
        0 <= x < w,
        0 <= y,
    ensures
        (y * w + x) / w == y,
        (y * w + x) % w == x,
        i >= 0 ==> (i == y * w + x <==> (i / w == y && i % w == x)),
{
    vstd::arithmetic::div_mod::lemma_fundamental_div_mod_converse(y * w + x, w, y, x);
    vstd::arithmetic::mul::lemma_mul_is_commutative(w, y);
    if i >= 0 {
        vstd::arithmetic::div_mod::lemma_fundamental_div_mod(i, w);
        vstd::arithmetic::mul::lemma_mul_is_commutative(w, i / w);
    }
}

/// Draws a rectangle of size `size` at `origin` in the native colour
/// `native` onto `buffer`, a row-major surface of size `canvas`. Pixels of
/// the rectangle outside the surface are skipped.
pub fn draw_rect(buffer: &mut Vec<u32>, canvas: Canvas, size: Canvas, origin: Offset, native: u32)
    requires
        fits(canvas, old(buffer)@.len() as int),
    ensures
        final(buffer)@ == drawn(old(buffer)@, canvas, size, origin, native),
{
    let color = swap_red_blue(native);
    let alpha = (color >> 24) & 0xFF;
    assert(alpha == alpha_of(color)) by (bit_vector)
        requires
            alpha == (color >> 24) & 0xFF,
    ;
    if alpha == 0 || canvas.w == 0 {
        // Nothing is drawn for a fully transparent colour.
        assert(final(buffer)@ =~= drawn(old(buffer)@, canvas, size, origin, native));
        return;
    }
    assert(alpha_of(color) <= 255) by (bit_vector);
    let len = buffer.len();
    let ghost old_buf = buffer@;
    let ghost w = canvas.w as int;
    let x0: i64 = if origin.x < 0 { 0 } else { origin.x as i64 };
    let x1: i64 = if (origin.x as i64) + (size.w as i64) < canvas.w as i64 {
        (origin.x as i64) + (size.w as i64)
    } else {
        canvas.w as i64
    };
    let y0: i64 = if origin.y < 0 { 0 } else { origin.y as i64 };
    let y1: i64 = if (origin.y as i64) + (size.h as i64) < canvas.h as i64 {
        (origin.y as i64) + (size.h as i64)
    } else {
        canvas.h as i64
    };
    let mut y: i64 = y0;
    while y < y1
        invariant
            0 <= y0 <= y,
            y <= y1 || y == y0,
            y1 <= canvas.h,
            0 <= x0,
            x1 <= canvas.w,
            x0 == (if origin.x < 0 { 0 } else { origin.x as int }),
            x1 == (if origin.x + size.w < canvas.w { origin.x + size.w } else { canvas.w as int }),
            y0 == (if origin.y < 0 { 0 } else { origin.y as int }),
            y1 == (if origin.y + size.h < canvas.h { origin.y + size.h } else { canvas.h as int }),
            w == canvas.w,
            w > 0,
            fits(canvas, old_buf.len() as int),
            len == old_buf.len(),
            0 < alpha_of(color) <= 255,
            alpha == alpha_of(color),
            color == swap_spec(native),
            painted_before(buffer@, old_buf, canvas, size, origin, color, 0, y as int),
        decreases y1 - y,
    {
        proof {
            assert(y * w + w <= canvas.w * canvas.h) by (nonlinear_arith)
                requires
                    y < canvas.h,
                    w == canvas.w,
                    w > 0,
            ;
        }
        let line_offset = (y as usize) * (canvas.w as usize);
        let mut x: i64 = x0;
        while x < x1
            invariant
                0 <= y0 <= y < y1,
                y1 <= canvas.h,
                0 <= x0 <= x,
                x <= x1 || x == x0,
                x1 <= canvas.w,
                x0 == (if origin.x < 0 { 0 } else { origin.x as int }),
                x1 == (if origin.x + size.w < canvas.w { origin.x + size.w } else { canvas.w as int }),
                y0 == (if origin.y < 0 { 0 } else { origin.y as int }),
                y1 == (if origin.y + size.h < canvas.h { origin.y + size.h } else { canvas.h as int }),
                w == canvas.w,
                w > 0,
                line_offset == y * w,
                y * w + w <= old_buf.len(),
                fits(canvas, old_buf.len() as int),
                len == old_buf.len(),
                0 < alpha_of(color) <= 255,
                alpha == alpha_of(color),
                painted_before(buffer@, old_buf, canvas, size, origin, color, x as int, y as int),
            decreases x1 - x,
        {
            let offset = line_offset + x as usize;
            let current = buffer[offset];
            let next = if alpha == 255 {
                // Overwrite with an opaque colour
                color
            } else if current & 0xFF000000 == 0 {
                // Overwrite if nothing was painted here yet
                color
            } else {
                blend_pixel(current, color)
            };
            buffer.set(offset, next);
            proof {
                let xi = x as int;
                let yi = y as int;
                lemma_row_col(0, w, xi, yi);
                assert(in_rect(xi, yi, size, origin));
                assert forall|i: int| 0 <= i < buffer@.len() implies #[trigger] buffer@[i] == (if in_rect(i % w, i / w, size, origin)
                    && (i / w < yi || (i / w == yi && i % w < xi + 1)) {
                    paint(old_buf[i], color)
                } else {
                    old_buf[i]
                }) by {
                    lemma_row_col(i, w, xi, yi);
                }
            }
            x = x + 1;
        }
        proof {
            let yi = y as int;
            assert forall|i: int| 0 <= i < buffer@.len() implies #[trigger] buffer@[i] == (if in_rect(i % w, i / w, size, origin)
                && (i / w < yi + 1 || (i / w == yi + 1 && i % w < 0)) {
                paint(old_buf[i], color)
            } else {
                old_buf[i]
            }) by {
                vstd::arithmetic::div_mod::lemma_fundamental_div_mod(i, w);
                vstd::arithmetic::div_mod::lemma_mod_bound(i, w);
            }
        }
        y = y + 1;
    }
    proof {
        assert forall|i: int| 0 <= i < buffer@.len() implies #[trigger] buffer@[i] == drawn(old_buf, canvas, size, origin, native)[i] by {
            vstd::arithmetic::div_mod::lemma_fundamental_div_mod(i, w);
            vstd::arithmetic::div_mod::lemma_mod_bound(i, w);
            vstd::arithmetic::div_mod::lemma_div_pos_is_pos(i, w);
            vstd::arithmetic::mul::lemma_mul_is_commutative(w, i / w);
            if i / w >= canvas.h {
                assert(i / w * w >= canvas.h * w) by (nonlinear_arith)
                    requires
                        i / w >= canvas.h,
                        w > 0,
                ;
                assert(canvas.h * w == canvas.w * canvas.h) by (nonlinear_arith)
                    requires
                        w == canvas.w,
                ;
            }
            assert(i / w < canvas.h);
            if in_rect(i % w, i / w, size, origin) {
                assert(i / w < y);
            }
        }
        assert(buffer@ =~= drawn(old_buf, canvas, size, origin, native));
    }
}

/// Integer mix of two bytes: `dst` weighted by `255 - a` plus `src` weighted
/// by `a`, divided by 256.
pub open spec fn mix(dst: int, src: int, a: int) -> int {
    ((255 - a) * dst + a * src) / 256
}

pub open spec fn min_of(a: int, b: int) -> int {
    if a <= b { a } else { b }
}

pub open spec fn max_of(a: int, b: int) -> int {
    if a <= b { b } else { a }
}

proof fn lemma_mix_shift(d: u32, s: u32, a: u32)
    requires
        a <= 255,
        d <= 256,
        s <= 256,
    ensures
        ((((255 - a) * d + a * s) as u32) >> 8) == mix(d as int, s as int, a as int),
{
    let v = (255 - a) * d + a * s;
    assert(0 <= v <= 65536 * 2) by (nonlinear_arith)
        requires
            v == (255 - a) * d + a * s,
            a <= 255,
            d <= 256,
            s <= 256,
    ;
    let vv = v as u32;
    assert(vv >> 8 == vv / 256) by (bit_vector);
}

proof fn lemma_mix_bounds(d: int, s: int, a: int)
    requires
        0 < a < 255,
        0 <= d <= 255,
        0 <= s <= 255,
    ensures
        min_of(d, s) - 1 <= mix(d, s, a) <= max_of(d, s),
{
    let v = (255 - a) * d + a * s;
    let lo = min_of(d, s);
    let hi = max_of(d, s);
    assert(255 * lo <= v <= 255 * hi) by (nonlinear_arith)
        requires
            v == (255 - a) * d + a * s,
            0 < a < 255,
            lo <= d <= hi,
            lo <= s <= hi,
    ;
    assert(v / 256 <= hi) by (nonlinear_arith)
        requires
            v <= 255 * hi,
            0 <= hi,
    ;
    assert(v / 256 >= lo - 1) by (nonlinear_arith)
        requires
            255 * lo <= v,
            0 <= lo <= 255,
    ;
}

#[verifier::rlimit(50)]
proof fn lemma_blend_low(c: u32, s: u32, a: u32, p: u32)
    requires
        0 < a < 255,
        p == (((((255 - a) * (c & 0x00FF00FF) + a * (s & 0x00FF00FF)) as u32) >> 8) & 0x00FF00FF) | (((
            (255 - a) * ((c & 0xFF00FF00) >> 8) + a * (0x01000000u32 | ((s & 0x0000FF00) >> 8))) as u32)
                & 0xFF00FF00),
    ensures
        p & 0xFF == ((((255 - a) * (c & 0xFF) + a * (s & 0xFF)) as u32) >> 8),
{
    assert(p & 0xFF == ((((255 - a) * (c & 0xFF) + a * (s & 0xFF)) as u32) >> 8)) by (bit_vector)
        requires
            0 < a < 255,
            p == (((((255 - a) * (c & 0x00FF00FF) + a * (s & 0x00FF00FF)) as u32) >> 8) & 0x00FF00FF) | (((
            (255 - a) * ((c & 0xFF00FF00) >> 8) + a * (0x01000000u32 | ((s & 0x0000FF00) >> 8))) as u32)
                & 0xFF00FF00),
    ;
}

#[verifier::rlimit(50)]
proof fn lemma_blend_green(c: u32, s: u32, a: u32, p: u32)
    requires
        0 < a < 255,
        p == (((((255 - a) * (c & 0x00FF00FF) + a * (s & 0x00FF00FF)) as u32) >> 8) & 0x00FF00FF) | (((
            (255 - a) * ((c & 0xFF00FF00) >> 8) + a * (0x01000000u32 | ((s & 0x0000FF00) >> 8))) as u32)
                & 0xFF00FF00),
    ensures
        (p >> 8) & 0xFF == ((((255 - a) * ((c >> 8) & 0xFF) + a * ((s >> 8) & 0xFF)) as u32) >> 8),
{
    assert((p >> 8) & 0xFF == ((((255 - a) * ((c >> 8) & 0xFF) + a * ((s >> 8) & 0xFF)) as u32) >> 8))
        by (bit_vector)
        requires
            0 < a < 255,
            p == (((((255 - a) * (c & 0x00FF00FF) + a * (s & 0x00FF00FF)) as u32) >> 8) & 0x00FF00FF) | (((
            (255 - a) * ((c & 0xFF00FF00) >> 8) + a * (0x01000000u32 | ((s & 0x0000FF00) >> 8))) as u32)
                & 0xFF00FF00),
    ;
}

#[verifier::rlimit(50)]
proof fn lemma_blend_high(c: u32, s: u32, a: u32, p: u32)
    requires
        0 < a < 255,
        p == (((((255 - a) * (c & 0x00FF00FF) + a * (s & 0x00FF00FF)) as u32) >> 8) & 0x00FF00FF) | (((
            (255 - a) * ((c & 0xFF00FF00) >> 8) + a * (0x01000000u32 | ((s & 0x0000FF00) >> 8))) as u32)
                & 0xFF00FF00),
    ensures
        (p >> 16) & 0xFF == ((((255 - a) * ((c >> 16) & 0xFF) + a * ((s >> 16) & 0xFF)) as u32) >> 8),
{
    let x = (((255 - a) * (c & 0x00FF00FF) + a * (s & 0x00FF00FF)) as u32) >> 8;
    assert((p >> 16) & 0xFF == (x >> 16) & 0xFF) by (bit_vector)
        requires
            p == (x & 0x00FF00FF) | (((
            (255 - a) * ((c & 0xFF00FF00) >> 8) + a * (0x01000000u32 | ((s & 0x0000FF00) >> 8))) as u32)
                & 0xFF00FF00),
    ;
    assert((x >> 16) & 0xFF == ((((255 - a) * ((c >> 16) & 0xFF) + a * ((s >> 16) & 0xFF)) as u32) >> 8))
        by (bit_vector)
        requires
            0 < a < 255,
            x == (((255 - a) * (c & 0x00FF00FF) + a * (s & 0x00FF00FF)) as u32) >> 8,
    ;
}

#[verifier::rlimit(50)]
proof fn lemma_blend_alpha(c: u32, s: u32, a: u32, p: u32)
    requires
        0 < a < 255,
        p == (((((255 - a) * (c & 0x00FF00FF) + a * (s & 0x00FF00FF)) as u32) >> 8) & 0x00FF00FF) | (((
            (255 - a) * ((c & 0xFF00FF00) >> 8) + a * (0x01000000u32 | ((s & 0x0000FF00) >> 8))) as u32)
                & 0xFF00FF00),
    ensures
        p >> 24 == ((((255 - a) * (c >> 24) + a * 256u32) as u32) >> 8),
{
    assert(p >> 24 == ((((255 - a) * (c >> 24) + a * 256u32) as u32) >> 8)) by (bit_vector)
        requires
            0 < a < 255,
            p == (((((255 - a) * (c & 0x00FF00FF) + a * (s & 0x00FF00FF)) as u32) >> 8) & 0x00FF00FF) | (((
            (255 - a) * ((c & 0xFF00FF00) >> 8) + a * (0x01000000u32 | ((s & 0x0000FF00) >> 8))) as u32)
                & 0xFF00FF00),
    ;
}

proof fn lemma_blend_channels(c: u32, s: u32)
    requires
        0 < alpha_of(s) < 255,
    ensures
        channel(blend_spec(c, s), 0) == mix(channel(c, 0) as int, channel(s, 0) as int, alpha_of(s) as int),
        channel(blend_spec(c, s), 1) == mix(channel(c, 1) as int, channel(s, 1) as int, alpha_of(s) as int),
        channel(blend_spec(c, s), 2) == mix(channel(c, 2) as int, channel(s, 2) as int, alpha_of(s) as int),
        channel(blend_spec(c, s), 3) == mix(channel(c, 3) as int, 256, alpha_of(s) as int),
{
    let a = alpha_of(s);
    let p = blend_spec(c, s);
    assert(p == (((((255 - a) * (c & 0x00FF00FF) + a * (s & 0x00FF00FF)) as u32) >> 8) & 0x00FF00FF) | (((
            (255 - a) * ((c & 0xFF00FF00) >> 8) + a * (0x01000000u32 | ((s & 0x0000FF00) >> 8))) as u32)
                & 0xFF00FF00));
    lemma_blend_low(c, s, a, p);
    lemma_blend_green(c, s, a, p);
    lemma_blend_high(c, s, a, p);
    lemma_blend_alpha(c, s, a, p);
    assert(c & 0xFF <= 255 && (c >> 8) & 0xFF <= 255 && (c >> 16) & 0xFF <= 255 && c >> 24 <= 255)
        by (bit_vector);
    assert(s & 0xFF <= 255 && (s >> 8) & 0xFF <= 255 && (s >> 16) & 0xFF <= 255) by (bit_vector);
    lemma_mix_shift(c & 0xFF, s & 0xFF, a);
    lemma_mix_shift((c >> 8) & 0xFF, (s >> 8) & 0xFF, a);
    lemma_mix_shift((c >> 16) & 0xFF, (s >> 16) & 0xFF, a);
    lemma_mix_shift(c >> 24, 256, a);
}

proof fn lemma_swap_bytes(c: u32)
    ensures
        channel(swap_spec(c), 0) == channel(c, 2),
        channel(swap_spec(c), 1) == channel(c, 1),
        channel(swap_spec(c), 2) == channel(c, 0),
        alpha_of(swap_spec(c)) == alpha_of(c),
{
    let w = swap_spec(c);
    assert(w & 0xFF == (c >> 16) & 0xFF && (w >> 8) & 0xFF == (c >> 8) & 0xFF && (w >> 16) & 0xFF == c & 0xFF
        && w >> 24 == c >> 24) by (bit_vector)
        requires
            w == (c & 0xFF00FF00) | ((c & 0x00FF0000) >> 16) | ((c & 0x000000FF) << 16),
    ;
}

/// Drawing a partly transparent colour over a pixel that is already painted
/// mixes each colour byte of the pixel with the matching byte of the
/// reordered colour, so the new byte lies between the two (less one at most,
/// for the division by 256); the alpha byte becomes the old alpha mixed with 256.
pub proof fn blend_interpolates(current: u32, native: u32)
    requires
        alpha_of(current) != 0,
        0 < alpha_of(native) < 255,
    ensures
        forall|k: int|
            0 <= k < 3 ==> {
                let d = channel(current, k) as int;
                let s = channel(swap_spec(native), k) as int;
                let r = #[trigger] channel(paint(current, swap_spec(native)), k) as int;
                &&& r == mix(d, s, alpha_of(native) as int)
                &&& min_of(d, s) - 1 <= r <= max_of(d, s)
            },
        channel(paint(current, swap_spec(native)), 3) == mix(alpha_of(current) as int, 256, alpha_of(native) as int),
{
    let col = swap_spec(native);
    lemma_swap_bytes(native);
    assert(current & 0xFF000000 != 0) by (bit_vector)
        requires
            current >> 24 != 0,
    ;
    lemma_blend_channels(current, col);
    let a = alpha_of(col) as int;
    assert(current & 0xFF <= 255 && (current >> 8) & 0xFF <= 255 && (current >> 16) & 0xFF <= 255) by (bit_vector);
    assert(col & 0xFF <= 255 && (col >> 8) & 0xFF <= 255 && (col >> 16) & 0xFF <= 255) by (bit_vector);
    lemma_mix_bounds(channel(current, 0) as int, channel(col, 0) as int, a);
    lemma_mix_bounds(channel(current, 1) as int, channel(col, 1) as int, a);
    lemma_mix_bounds(channel(current, 2) as int, channel(col, 2) as int, a);
}

/// Drawing an opaque colour onto a transparent surface leaves the reordered
/// colour on every pixel of the rectangle that lies on the surface, and
/// leaves every other pixel transparent.
pub proof fn opaque_fill(canvas: Canvas, size: Canvas, origin: Offset, native: u32)
    requires
        canvas.w > 0,
        canvas.h >= 0,
        alpha_of(native) == 255,
    ensures
        ({
            let w = canvas.w as int;
            let zero = Seq::new((canvas.w * canvas.h) as nat, |i: int| 0u32);
            let out = drawn(zero, canvas, size, origin, native);
            &&& out.len() == zero.len()
            &&& forall|i: int|
                0 <= i < out.len() ==> #[trigger] out[i] == (if in_rect(i % w, i / w, size, origin) {
                    swap_spec(native)
                } else {
                    0u32
                })
        }),
{
    lemma_swap_bytes(native);
}

/// A fully transparent colour leaves the surface as it was.
pub proof fn transparent_is_noop(buf: Seq<u32>, canvas: Canvas, size: Canvas, origin: Offset, native: u32)
    requires
        alpha_of(native) == 0,
    ensures
        drawn(buf, canvas, size, origin, native) == buf,
{
    lemma_swap_bytes(native);
    assert(drawn(buf, canvas, size, origin, native) =~= buf);
}

/// Drawing changes only pixels that lie both in the rectangle and on the
/// surface, whatever the rectangle's position and size.
pub proof fn only_in_bounds_written(buf: Seq<u32>, canvas: Canvas, size: Canvas, origin: Offset, native: u32)
    requires
        fits(canvas, buf.len() as int),
    ensures
        drawn(buf, canvas, size, origin, native).len() == buf.len(),
        forall|i: int|
            0 <= i < buf.len() && #[trigger] drawn(buf, canvas, size, origin, native)[i] != buf[i] ==> {
                let x = i % (canvas.w as int);
                let y = i / (canvas.w as int);
                &&& i == y * canvas.w + x
                &&& 0 <= x < canvas.w
                &&& 0 <= y < canvas.h
                &&& in_rect(x, y, size, origin)
            },
{
    let w = canvas.w as int;
    assert forall|i: int|
        0 <= i < buf.len() && #[trigger] drawn(buf, canvas, size, origin, native)[i] != buf[i] implies {
            let x = i % w;
            let y = i / w;
            &&& i == y * canvas.w + x
            &&& 0 <= x < canvas.w
            &&& 0 <= y < canvas.h
            &&& in_rect(x, y, size, origin)
        } by {
        vstd::arithmetic::div_mod::lemma_fundamental_div_mod(i, w);
        vstd::arithmetic::div_mod::lemma_mod_bound(i, w);
        vstd::arithmetic::div_mod::lemma_div_pos_is_pos(i, w);
        vstd::arithmetic::mul::lemma_mul_is_commutative(w, i / w);
        if i / w >= canvas.h {
            assert(i / w * w >= canvas.h * w) by (nonlinear_arith)
                requires
                    i / w >= canvas.h,
                    w > 0,
            ;
            assert(canvas.h * w == canvas.w * canvas.h) by (nonlinear_arith)
                requires
                    w == canvas.w,
            ;
        }
    }
}

} // verus!
