//! The compositing renderer: blends pre-rasterized, pre-blurred ink masks
//! onto a textured paper canvas.
//!
//! The ink model is multiplicative darkening only: for each covered pixel
//! the effective ink alpha is the configured opacity, modulated by the mask
//! coverage, by the paper's surface normal (grazing surfaces catch more
//! ink), and by its roughness, clamped to one; each color channel is then
//! multiplied by one minus that alpha. A channel can only darken, never
//! lighten, and the alpha channel is untouched. All fractions are carried
//! in thousandths.

use vstd::prelude::*;

use crate::config::Config;
use crate::layout::{GlyphInstance, Redaction};
use crate::outside::rng_in_range;

verus! {

/// An RGBA raster: four bytes per pixel, rows top to bottom.
#[derive(Debug, Clone)]
pub struct Canvas {
    /// Width in pixels.
    pub width: u32,
    /// Height in pixels.
    pub height: u32,
    /// Pixel bytes: red, green, blue, alpha per pixel.
    pub data: Vec<u8>,
}

/// A single-channel raster: one coverage byte per pixel.
#[derive(Debug, Clone)]
pub struct Mask {
    /// Width in pixels.
    pub width: u32,
    /// Height in pixels.
    pub height: u32,
    /// Coverage bytes.
    pub data: Vec<u8>,
}

impl Canvas {
    /// Dimensions within the supported raster range and a matching buffer.
    pub open spec fn wf(self) -> bool {
        &&& self.width <= 16384
        &&& self.height <= 16384
        &&& self.data@.len() == 4 * self.width * self.height
    }

    /// The byte of channel `ch` of pixel `(x, y)`.
    pub open spec fn at(self, x: int, y: int, ch: int) -> u8 {
        self.data@[4 * (y * self.width + x) + ch]
    }
}

impl Mask {
    /// Dimensions within the supported raster range and a matching buffer.
    pub open spec fn wf(self) -> bool {
        &&& self.width <= 16384
        &&& self.height <= 16384
        &&& self.data@.len() == self.width * self.height
    }

    /// The coverage byte of pixel `(x, y)`.
    pub open spec fn at(self, x: int, y: int) -> u8 {
        self.data@[y * self.width + x]
    }
}

/// The lighting modulation of a surface normal's facing component, in
/// thousandths: flat paper passes ink through unchanged, grazing paper
/// catches up to a fifth more.
pub open spec fn light_mod_milli(nz: u8) -> int {
    1000 + 200 * (255 - nz) / 255
}

/// The effective ink alpha in thousandths: opacity times mask coverage
/// times lighting times roughness, clamped to one.
pub open spec fn ink_alpha_milli(op: int, a: u8, nz: u8, rg: u8) -> int {
    let raw = op * a * light_mod_milli(nz) * rg / 65_025_000;
    if raw > 1000 {
        1000
    } else {
        raw
    }
}

/// One channel darkened by an ink alpha in thousandths.
pub open spec fn darken(v: u8, ink: int) -> u8 {
    (v * (1000 - ink) / 1000) as u8
}

/// The effective ink alpha is a valid fraction.
pub proof fn lemma_ink_alpha_range(op: int, a: u8, nz: u8, rg: u8)
    requires
        0 <= op <= 1000,
    ensures
        0 <= ink_alpha_milli(op, a, nz, rg) <= 1000,
{
    assert(1000 <= light_mod_milli(nz) <= 1200);
    assert(op * a * light_mod_milli(nz) * rg >= 0) by (nonlinear_arith)
        requires
            op >= 0,
            a >= 0,
            light_mod_milli(nz) >= 0,
            rg >= 0,
    ;
}

/// Ink can only darken: the blended channel never exceeds the original,
/// and zero ink leaves it unchanged.
pub proof fn lemma_darken_monotonic(v: u8, ink: int)
    requires
        0 <= ink <= 1000,
    ensures
        darken(v, ink) <= v,
        ink == 0 ==> darken(v, ink) == v,
{
    assert(v * (1000 - ink) <= v * 1000) by (nonlinear_arith)
        requires
            0 <= ink <= 1000,
            v >= 0,
    ;
    assert(v * (1000 - ink) >= 0) by (nonlinear_arith)
        requires
            0 <= ink <= 1000,
            v >= 0,
    ;
    assert(v * 1000 / 1000 == v);
    assert(v * (1000 - ink) / 1000 <= v * 1000 / 1000) by (nonlinear_arith)
        requires
            0 <= v * (1000 - ink) <= v * 1000,
    ;
}

/// The value of byte `i` of a canvas after one mask is blended at
/// `(x0, y0)`: a red, green or blue byte whose pixel lies under the mask is
/// darkened by the effective ink alpha there; every other byte is
/// unchanged.
pub open spec fn blend_at(
    data: Seq<u8>,
    w: int,
    mask: Mask,
    normal: Canvas,
    rough: Mask,
    x0: int,
    y0: int,
    op: int,
    i: int,
) -> u8 {
    let p = i / 4;
    let ch = i % 4;
    let y = p / w;
    let x = p % w;
    if ch < 3 && x0 <= x < x0 + mask.width && y0 <= y < y0 + mask.height {
        darken(
            data[i],
            ink_alpha_milli(op, mask.at(x - x0, y - y0), normal.at(x, y, 2), rough.at(x, y)),
        )
    } else {
        data[i]
    }
}

/// A whole canvas buffer after one mask is blended.
pub open spec fn blend_full(
    data: Seq<u8>,
    w: int,
    mask: Mask,
    normal: Canvas,
    rough: Mask,
    x0: int,
    y0: int,
    op: int,
) -> Seq<u8> {
    Seq::new(data.len(), |i: int| blend_at(data, w, mask, normal, rough, x0, y0, op, i))
}

/// Blending is monotonic darkening: no byte grows, and alpha bytes are
/// untouched.
pub proof fn lemma_blend_darkens(
    data: Seq<u8>,
    w: int,
    mask: Mask,
    normal: Canvas,
    rough: Mask,
    x0: int,
    y0: int,
    op: int,
)
    requires
        0 <= op <= 1000,
    ensures
        blend_full(data, w, mask, normal, rough, x0, y0, op).len() == data.len(),
        forall|i: int|
            0 <= i < data.len() ==> #[trigger] blend_full(
                data,
                w,
                mask,
                normal,
                rough,
                x0,
                y0,
                op,
            )[i] <= data[i],
        forall|i: int|
            0 <= i < data.len() && i % 4 == 3 ==> #[trigger] blend_full(
                data,
                w,
                mask,
                normal,
                rough,
                x0,
                y0,
                op,
            )[i] == data[i],
{
    let b = blend_full(data, w, mask, normal, rough, x0, y0, op);
    assert forall|i: int| 0 <= i < data.len() implies #[trigger] b[i] <= data[i] && (i % 4 == 3
        ==> b[i] == data[i]) by {
        let p = i / 4;
        let ch = i % 4;
        let y = p / w;
        let x = p % w;
        if ch < 3 && x0 <= x < x0 + mask.width && y0 <= y < y0 + mask.height {
            lemma_ink_alpha_range(op, mask.at(x - x0, y - y0), normal.at(x, y, 2), rough.at(x, y));
            lemma_darken_monotonic(
                data[i],
                ink_alpha_milli(op, mask.at(x - x0, y - y0), normal.at(x, y, 2), rough.at(x, y)),
            );
        }
    }
}

/// A pixel byte index decomposes into its coordinates.
proof fn lemma_idx(w: int, h: int, len: int, x: int, y: int, ch: int)
    requires
        len == 4 * w * h,
        0 <= x < w,
        0 <= y < h,
        0 <= ch < 4,
    ensures
        ({
            let i = 4 * (y * w + x) + ch;
            &&& 0 <= i < len
            &&& i / 4 == y * w + x
            &&& i % 4 == ch
            &&& (y * w + x) / w == y
            &&& (y * w + x) % w == x
        }),
{
    let p = y * w + x;
    let i = 4 * p + ch;
    assert(0 <= p && p < w * h) by (nonlinear_arith)
        requires
            0 <= x < w,
            0 <= y < h,
            p == y * w + x,
    ;
    assert(0 <= i && i < 4 * w * h) by (nonlinear_arith)
        requires
            0 <= p < w * h,
            0 <= ch < 4,
            i == 4 * p + ch,
    ;
    vstd::arithmetic::div_mod::lemma_fundamental_div_mod_converse(i, 4, p, ch);
    vstd::arithmetic::div_mod::lemma_fundamental_div_mod_converse(p, w, y, x);
}

/// Conversely, any byte index within the buffer is the index of the pixel
/// coordinates it decomposes into.
proof fn lemma_idx_inv(w: int, h: int, len: int, i: int)
    requires
        len == 4 * w * h,
        0 <= i < len,
        w >= 1,
    ensures
        ({
            let p = i / 4;
            let ch = i % 4;
            let y = p / w;
            let x = p % w;
            &&& 0 <= ch < 4
            &&& 0 <= x < w
            &&& 0 <= y < h
            &&& i == 4 * (y * w + x) + ch
        }),
{
    vstd::arithmetic::div_mod::lemma_fundamental_div_mod(i, 4);
    let p = i / 4;
    let ch = i % 4;
    assert(0 <= p < w * h) by (nonlinear_arith)
        requires
            i == 4 * p + ch,
            0 <= ch < 4,
            0 <= i < 4 * w * h,
    ;
    vstd::arithmetic::div_mod::lemma_fundamental_div_mod(p, w);
    let y = p / w;
    let x = p % w;
    assert(0 <= y < h) by (nonlinear_arith)
        requires
            p == w * y + x,
            0 <= x < w,
            0 <= p < w * h,
            w >= 1,
    ;
}

/// The canvas buffer after a region of the mask has been blended: all
/// columns before `mx`, and within column `mx` the rows before `my`.
pub open spec fn blend_upto(
    data: Seq<u8>,
    w: int,
    mask: Mask,
    normal: Canvas,
    rough: Mask,
    x0: int,
    y0: int,
    op: int,
    mx: int,
    my: int,
) -> Seq<u8> {
    Seq::new(
        data.len(),
        |i: int|
            {
                let p = i / 4;
                let ch = i % 4;
                let y = p / w;
                let x = p % w;
                if ch < 3 && x0 <= x < x0 + mask.width && y0 <= y < y0 + mask.height && ((x - x0
                    < mx) || (x - x0 == mx && y - y0 < my)) {
                    darken(
                        data[i],
                        ink_alpha_milli(
                            op,
                            mask.at(x - x0, y - y0),
                            normal.at(x, y, 2),
                            rough.at(x, y),
                        ),
                    )
                } else {
                    data[i]
                }
            },
    )
}

/// Blending one more mask pixel that falls outside the canvas changes
/// nothing.
proof fn lemma_blend_skip(
    d0: Seq<u8>,
    cur: Seq<u8>,
    w: int,
    h: int,
    mask: Mask,
    normal: Canvas,
    rough: Mask,
    x0: int,
    y0: int,
    op: int,
    mx: int,
    my: int,
)
    requires
        d0.len() == 4 * w * h,
        w >= 0,
        h >= 0,
        x0 >= 0,
        y0 >= 0,
        !(x0 + mx < w && y0 + my < h),
        cur == blend_upto(d0, w, mask, normal, rough, x0, y0, op, mx, my),
    ensures
        cur == blend_upto(d0, w, mask, normal, rough, x0, y0, op, mx, my + 1),
{
    assert(blend_upto(d0, w, mask, normal, rough, x0, y0, op, mx, my) =~= blend_upto(
        d0,
        w,
        mask,
        normal,
        rough,
        x0,
        y0,
        op,
        mx,
        my + 1,
    )) by {
        assert forall|i: int|
            0 <= i < d0.len() implies blend_upto(d0, w, mask, normal, rough, x0, y0, op, mx, my)[i]
            == blend_upto(d0, w, mask, normal, rough, x0, y0, op, mx, my + 1)[i] by {
            assert(w >= 1) by (nonlinear_arith)
                requires
                    4 * w * h > 0,
                    w >= 0,
                    h >= 0,
            ;
            lemma_idx_inv(w, h, d0.len() as int, i);
            let p = i / 4;
            let y = p / w;
            let x = p % w;
            if x - x0 == mx && y - y0 == my {
                assert(x < w && y < h);
                assert(false);
            }
        }
    }
}

/// Blending one more mask pixel that lands on the canvas updates exactly
/// that pixel's three color bytes.
proof fn lemma_blend_step(
    d0: Seq<u8>,
    before: Seq<u8>,
    after: Seq<u8>,
    w: int,
    h: int,
    mask: Mask,
    normal: Canvas,
    rough: Mask,
    x0: int,
    y0: int,
    op: int,
    mx: int,
    my: int,
    ink: int,
)
    requires
        d0.len() == 4 * w * h,
        w >= 0,
        h >= 0,
        mask.wf(),
        0 <= mx < mask.width,
        0 <= my < mask.height,
        x0 >= 0,
        y0 >= 0,
        x0 + mx < w,
        y0 + my < h,
        before == blend_upto(d0, w, mask, normal, rough, x0, y0, op, mx, my),
        ink == ink_alpha_milli(
            op,
            mask.at(mx, my),
            normal.at(x0 + mx, y0 + my, 2),
            rough.at(x0 + mx, y0 + my),
        ),
        0 <= ink <= 1000,
        ({
            let b = 4 * ((y0 + my) * w + (x0 + mx));
            after == before.update(b, ((before[b] * (1000 - ink)) / 1000) as u8).update(
                b + 1,
                ((before[b + 1] * (1000 - ink)) / 1000) as u8,
            ).update(b + 2, ((before[b + 2] * (1000 - ink)) / 1000) as u8)
        }),
    ensures
        after == blend_upto(d0, w, mask, normal, rough, x0, y0, op, mx, my + 1),
{
    let cx = x0 + mx;
    let cy = y0 + my;
    let b = 4 * (cy * w + cx);
    lemma_idx(w, h, d0.len() as int, cx, cy, 0);
    lemma_idx(w, h, d0.len() as int, cx, cy, 1);
    lemma_idx(w, h, d0.len() as int, cx, cy, 2);
    lemma_idx(w, h, d0.len() as int, cx, cy, 3);
    // the three updated bytes were still original
    assert(before[b] == d0[b]);
    assert(before[b + 1] == d0[b + 1]);
    assert(before[b + 2] == d0[b + 2]);
    assert(after =~= blend_upto(d0, w, mask, normal, rough, x0, y0, op, mx, my + 1)) by {
        assert forall|i: int|
            0 <= i < d0.len() implies after[i] == blend_upto(
            d0,
            w,
            mask,
            normal,
            rough,
            x0,
            y0,
            op,
            mx,
            my + 1,
        )[i] by {
            assert(w >= 1) by (nonlinear_arith)
                requires
                    4 * w * h > 0,
                    w >= 0,
                    h >= 0,
            ;
            lemma_idx_inv(w, h, d0.len() as int, i);
            let p = i / 4;
            let ch = i % 4;
            let y = p / w;
            let x = p % w;
            if b <= i < b + 3 {
                assert(i == 4 * (cy * w + cx) + (i - b));
                assert(i / 4 == cy * w + cx && i % 4 == i - b) by {
                    vstd::arithmetic::div_mod::lemma_fundamental_div_mod_converse(
                        i,
                        4,
                        cy * w + cx,
                        i - b,
                    );
                }
                assert(x == cx && y == cy);
                assert(after[i] == ((d0[i] * (1000 - ink)) / 1000) as u8);
                assert(after[i] == darken(d0[i], ink));
            } else {
                assert(after[i] == before[i]);
                if ch < 3 && x - x0 == mx && y - y0 == my {
                    assert(i == 4 * (cy * w + cx) + ch);
                    assert(b <= i < b + 3);
                    assert(false);
                }
            }
        }
    }
}

/// Blend one coverage mask into the canvas at `(x0, y0)`, sampling the
/// normal and roughness textures at each covered canvas pixel. Pixels
/// outside the canvas are silently skipped.
pub fn blend_ink(
    canvas: &mut Canvas,
    mask: &Mask,
    normal: &Canvas,
    rough: &Mask,
    x0: u32,
    y0: u32,
    opacity_milli: u32,
) -> (nothing: ())
    requires
        old(canvas).wf(),
        mask.wf(),
        normal.wf(),
        rough.wf(),
        normal.width == old(canvas).width,
        normal.height == old(canvas).height,
        rough.width == old(canvas).width,
        rough.height == old(canvas).height,
        opacity_milli <= 1000,
    ensures
        final(canvas).width == old(canvas).width,
        final(canvas).height == old(canvas).height,
        final(canvas).wf(),
        final(canvas).data@ == blend_full(
            old(canvas).data@,
            old(canvas).width as int,
            *mask,
            *normal,
            *rough,
            x0 as int,
            y0 as int,
            opacity_milli as int,
        ),
{
    let w = canvas.width;
    let h = canvas.height;
    let mw = mask.width;
    let mh = mask.height;
    let ghost d0 = canvas.data@;
    let mut mx: u32 = 0;
    proof {
        assert(canvas.data@ =~= blend_upto(
            d0,
            w as int,
            *mask,
            *normal,
            *rough,
            x0 as int,
            y0 as int,
            opacity_milli as int,
            0,
            0,
        ));
    }
    while mx < mw
        invariant
            0 <= mx <= mw,
            mw == mask.width,
            mh == mask.height,
            w == canvas.width,
            h == canvas.height,
            canvas.wf(),
            mask.wf(),
            normal.wf(),
            rough.wf(),
            normal.width == w,
            normal.height == h,
            rough.width == w,
            rough.height == h,
            opacity_milli <= 1000,
            canvas.data@ == blend_upto(
                d0,
                w as int,
                *mask,
                *normal,
                *rough,
                x0 as int,
                y0 as int,
                opacity_milli as int,
                mx as int,
                0,
            ),
        decreases mw - mx,
    {
        let mut my: u32 = 0;
        while my < mh
            invariant
                0 <= mx < mw,
                0 <= my <= mh,
                mw == mask.width,
                mh == mask.height,
                w == canvas.width,
                h == canvas.height,
                canvas.wf(),
                mask.wf(),
                normal.wf(),
                rough.wf(),
                normal.width == w,
                normal.height == h,
                rough.width == w,
                rough.height == h,
                opacity_milli <= 1000,
                canvas.data@ == blend_upto(
                    d0,
                    w as int,
                    *mask,
                    *normal,
                    *rough,
                    x0 as int,
                    y0 as int,
                    opacity_milli as int,
                    mx as int,
                    my as int,
                ),
            decreases mh - my,
        {
            let cx = x0 as u64 + mx as u64;
            let cy = y0 as u64 + my as u64;
            let ghost before = canvas.data@;
            if cx < w as u64 && cy < h as u64 {
                let cxu = cx as usize;
                let cyu = cy as usize;
                proof {
                    assert((my as int) * (mw as int) + (mx as int) < (mh as int) * (mw as int))
                        by (nonlinear_arith)
                        requires
                            0 <= mx < mw,
                            0 <= my < mh,
                    ;
                    assert((mh as int) * (mw as int) == (mw as int) * (mh as int))
                        by (nonlinear_arith);
                    assert((mh as int) * (mw as int) <= 16384 * 16384) by (nonlinear_arith)
                        requires
                            0 <= mw <= 16384,
                            0 <= mh <= 16384,
                    ;
                    assert((cy as int) * (w as int) + (cx as int) < (h as int) * (w as int))
                        by (nonlinear_arith)
                        requires
                            0 <= cx < w,
                            0 <= cy < h,
                    ;
                    assert((h as int) * (w as int) == (w as int) * (h as int))
                        by (nonlinear_arith);
                    assert((h as int) * (w as int) <= 16384 * 16384) by (nonlinear_arith)
                        requires
                            0 <= w <= 16384,
                            0 <= h <= 16384,
                    ;
                }
                proof {
                    assert((4 * (w as int)) * (h as int) == 4 * ((w as int) * (h as int)))
                        by (nonlinear_arith);
                }
                let a = mask.data[(my as usize) * (mw as usize) + (mx as usize)];
                let nz = normal.data[4 * (cyu * (w as usize) + cxu) + 2];
                let rg = rough.data[cyu * (w as usize) + cxu];
                let light: u64 = 1000 + 200 * (255 - nz as u64) / 255;
                proof {
                    assert((opacity_milli as int) * (a as int) <= 1000 * 255)
                        by (nonlinear_arith)
                        requires
                            0 <= opacity_milli <= 1000,
                            0 <= a <= 255,
                    ;
                    assert((opacity_milli as int) * (a as int) * (light as int) <= 255_000 * 1200)
                        by (nonlinear_arith)
                        requires
                            0 <= (opacity_milli as int) * (a as int) <= 255_000,
                            0 <= light <= 1200,
                    ;
                    assert((opacity_milli as int) * (a as int) * (light as int) * (rg as int)
                        <= 306_000_000 * 255) by (nonlinear_arith)
                        requires
                            0 <= (opacity_milli as int) * (a as int) * (light as int)
                                <= 306_000_000,
                            0 <= rg <= 255,
                    ;
                }
                let raw: u64 = (opacity_milli as u64) * (a as u64) * light * (rg as u64)
                    / 65_025_000;
                let ink: u64 = if raw > 1000 {
                    1000
                } else {
                    raw
                };
                proof {
                    assert(light as int == light_mod_milli(nz));
                    assert(ink as int == ink_alpha_milli(
                        opacity_milli as int,
                        a,
                        nz,
                        rg,
                    ));
                    lemma_ink_alpha_range(opacity_milli as int, a, nz, rg);
                }
                let base = 4 * (cyu * (w as usize) + cxu);
                let v0 = canvas.data[base];
                let v1 = canvas.data[base + 1];
                let v2 = canvas.data[base + 2];
                proof {
                    lemma_darken_monotonic(v0, ink as int);
                    lemma_darken_monotonic(v1, ink as int);
                    lemma_darken_monotonic(v2, ink as int);
                    assert((v0 as int) * (1000 - ink) <= 255 * 1000) by (nonlinear_arith)
                        requires
                            0 <= v0 <= 255,
                            0 <= 1000 - ink <= 1000,
                    ;
                    assert((v1 as int) * (1000 - ink) <= 255 * 1000) by (nonlinear_arith)
                        requires
                            0 <= v1 <= 255,
                            0 <= 1000 - ink <= 1000,
                    ;
                    assert((v2 as int) * (1000 - ink) <= 255 * 1000) by (nonlinear_arith)
                        requires
                            0 <= v2 <= 255,
                            0 <= 1000 - ink <= 1000,
                    ;
                }
                let n0 = ((v0 as u64) * (1000 - ink) / 1000) as u8;
                let n1 = ((v1 as u64) * (1000 - ink) / 1000) as u8;
                let n2 = ((v2 as u64) * (1000 - ink) / 1000) as u8;
                canvas.data.set(base, n0);
                canvas.data.set(base + 1, n1);
                canvas.data.set(base + 2, n2);
                proof {
                    lemma_blend_step(
                        d0,
                        before,
                        canvas.data@,
                        w as int,
                        h as int,
                        *mask,
                        *normal,
                        *rough,
                        x0 as int,
                        y0 as int,
                        opacity_milli as int,
                        mx as int,
                        my as int,
                        ink as int,
                    );
                }
            } else {
                proof {
                    lemma_blend_skip(
                        d0,
                        before,
                        w as int,
                        h as int,
                        *mask,
                        *normal,
                        *rough,
                        x0 as int,
                        y0 as int,
                        opacity_milli as int,
                        mx as int,
                        my as int,
                    );
                }
            }
            my += 1;
        }
        proof {
            assert(blend_upto(
                d0,
                w as int,
                *mask,
                *normal,
                *rough,
                x0 as int,
                y0 as int,
                opacity_milli as int,
                mx as int,
                mh as int,
            ) =~= blend_upto(
                d0,
                w as int,
                *mask,
                *normal,
                *rough,
                x0 as int,
                y0 as int,
                opacity_milli as int,
                mx + 1,
                0,
            ));
        }
        mx += 1;
    }
    proof {
        assert(blend_upto(
            d0,
            w as int,
            *mask,
            *normal,
            *rough,
            x0 as int,
            y0 as int,
            opacity_milli as int,
            mw as int,
            0,
        ) =~= blend_full(
            d0,
            w as int,
            *mask,
            *normal,
            *rough,
            x0 as int,
            y0 as int,
            opacity_milli as int,
        ));
    }
}

/// A mask ready to composite: its blurred coverage and the canvas position
/// of its top-left corner.
#[derive(Debug, Clone)]
pub struct PlacedMask {
    /// The coverage mask, already blurred for bleed.
    pub mask: Mask,
    /// Leftmost canvas column the mask covers.
    pub x0: u32,
    /// Topmost canvas row the mask covers.
    pub y0: u32,
}

/// A canvas buffer after one placed mask has been blended `n` times in
/// sequence; redactions use several passes to build denser coverage.
pub open spec fn apply_passes(
    data: Seq<u8>,
    w: int,
    pm: PlacedMask,
    normal: Canvas,
    rough: Mask,
    op: int,
    n: nat,
) -> Seq<u8>
    decreases n,
{
    if n == 0 {
        data
    } else {
        apply_passes(
            blend_full(data, w, pm.mask, normal, rough, pm.x0 as int, pm.y0 as int, op),
            w,
            pm,
            normal,
            rough,
            op,
            (n - 1) as nat,
        )
    }
}

/// One more pass is one more blend of the result.
pub proof fn lemma_apply_snoc(
    data: Seq<u8>,
    w: int,
    pm: PlacedMask,
    normal: Canvas,
    rough: Mask,
    op: int,
    n: nat,
)
    ensures
        apply_passes(data, w, pm, normal, rough, op, n + 1) == blend_full(
            apply_passes(data, w, pm, normal, rough, op, n),
            w,
            pm.mask,
            normal,
            rough,
            pm.x0 as int,
            pm.y0 as int,
            op,
        ),
    decreases n,
{
    let b = blend_full(data, w, pm.mask, normal, rough, pm.x0 as int, pm.y0 as int, op);
    assert(apply_passes(data, w, pm, normal, rough, op, n + 1) == apply_passes(
        b,
        w,
        pm,
        normal,
        rough,
        op,
        n,
    ));
    if n == 0 {
        assert(apply_passes(b, w, pm, normal, rough, op, 0) == b);
        assert(apply_passes(data, w, pm, normal, rough, op, 0) == data);
    } else {
        lemma_apply_snoc(b, w, pm, normal, rough, op, (n - 1) as nat);
        assert(apply_passes(data, w, pm, normal, rough, op, n) == apply_passes(
            b,
            w,
            pm,
            normal,
            rough,
            op,
            (n - 1) as nat,
        ));
    }
}

/// A canvas buffer after a list of placed masks has been blended in order,
/// each with the given number of passes.
pub open spec fn fold_masks(
    data: Seq<u8>,
    w: int,
    items: Seq<PlacedMask>,
    normal: Canvas,
    rough: Mask,
    op: int,
    passes: nat,
) -> Seq<u8>
    decreases items.len(),
{
    if items.len() == 0 {
        data
    } else {
        fold_masks(
            apply_passes(data, w, items[0], normal, rough, op, passes),
            w,
            items.drop_first(),
            normal,
            rough,
            op,
            passes,
        )
    }
}

/// Repeated passes only darken, keep the length, and leave alpha alone.
pub proof fn lemma_apply_darkens(
    data: Seq<u8>,
    w: int,
    pm: PlacedMask,
    normal: Canvas,
    rough: Mask,
    op: int,
    n: nat,
)
    requires
        0 <= op <= 1000,
    ensures
        ({
            let r = apply_passes(data, w, pm, normal, rough, op, n);
            &&& r.len() == data.len()
            &&& forall|i: int| 0 <= i < data.len() ==> #[trigger] r[i] <= data[i]
            &&& forall|i: int| 0 <= i < data.len() && i % 4 == 3 ==> #[trigger] r[i] == data[i]
        }),
    decreases n,
{
    if n > 0 {
        let b = blend_full(data, w, pm.mask, normal, rough, pm.x0 as int, pm.y0 as int, op);
        lemma_blend_darkens(data, w, pm.mask, normal, rough, pm.x0 as int, pm.y0 as int, op);
        lemma_apply_darkens(b, w, pm, normal, rough, op, (n - 1) as nat);
    }
}

/// A whole fold of masks only darkens, keeps the length, and leaves alpha
/// alone: the page-level monotonic-darkening law.
pub proof fn lemma_fold_darkens(
    data: Seq<u8>,
    w: int,
    items: Seq<PlacedMask>,
    normal: Canvas,
    rough: Mask,
    op: int,
    passes: nat,
)
    requires
        0 <= op <= 1000,
    ensures
        ({
            let r = fold_masks(data, w, items, normal, rough, op, passes);
            &&& r.len() == data.len()
            &&& forall|i: int| 0 <= i < data.len() ==> #[trigger] r[i] <= data[i]
            &&& forall|i: int| 0 <= i < data.len() && i % 4 == 3 ==> #[trigger] r[i] == data[i]
        }),
    decreases items.len(),
{
    if items.len() > 0 {
        let d1 = apply_passes(data, w, items[0], normal, rough, op, passes);
        lemma_apply_darkens(data, w, items[0], normal, rough, op, passes);
        lemma_fold_darkens(d1, w, items.drop_first(), normal, rough, op, passes);
    }
}

/// An identical copy of a canvas.
fn copy_canvas(paper: &Canvas) -> (c: Canvas)
    requires
        paper.wf(),
    ensures
        c.width == paper.width,
        c.height == paper.height,
        c.data@ == paper.data@,
        c.wf(),
{
    let n = paper.data.len();
    let mut data: Vec<u8> = Vec::new();
    let mut i: usize = 0;
    while i < n
        invariant
            0 <= i <= n,
            n == paper.data@.len(),
            data@ == paper.data@.take(i as int),
        decreases n - i,
    {
        data.push(paper.data[i]);
        proof {
            assert(paper.data@.take(i + 1) =~= paper.data@.take(i as int).push(
                paper.data@[i as int],
            ));
        }
        i += 1;
    }
    proof {
        assert(paper.data@.take(n as int) =~= paper.data@);
    }
    Canvas { width: paper.width, height: paper.height, data }
}

/// Render a page: start from a copy of the paper albedo, blend each glyph
/// mask once, then each redaction mask four times for denser coverage. The
/// output always has exactly the paper's dimensions; with nothing to draw
/// it is pixel-identical to the paper; and no channel is ever lightened,
/// with alpha untouched.
pub fn render_page(
    glyph_masks: &Vec<PlacedMask>,
    redaction_masks: &Vec<PlacedMask>,
    paper: &Canvas,
    normal: &Canvas,
    rough: &Mask,
    cfg: &Config,
) -> (canvas: Canvas)
    requires
        cfg.wf(),
        paper.wf(),
        normal.wf(),
        rough.wf(),
        normal.width == paper.width,
        normal.height == paper.height,
        rough.width == paper.width,
        rough.height == paper.height,
        forall|k: int| 0 <= k < glyph_masks@.len() ==> (#[trigger] glyph_masks@[k]).mask.wf(),
        forall|k: int|
            0 <= k < redaction_masks@.len() ==> (#[trigger] redaction_masks@[k]).mask.wf(),
    ensures
        canvas.width == paper.width,
        canvas.height == paper.height,
        canvas.wf(),
        canvas.data@ == fold_masks(
            fold_masks(
                paper.data@,
                paper.width as int,
                glyph_masks@,
                *normal,
                *rough,
                cfg.ink_opacity_milli as int,
                1,
            ),
            paper.width as int,
            redaction_masks@,
            *normal,
            *rough,
            cfg.ink_opacity_milli as int,
            4,
        ),
        glyph_masks@.len() == 0 && redaction_masks@.len() == 0 ==> canvas.data@ == paper.data@,
        forall|i: int|
            0 <= i < paper.data@.len() ==> #[trigger] canvas.data@[i] <= paper.data@[i],
        forall|i: int|
            0 <= i < paper.data@.len() && i % 4 == 3 ==> #[trigger] canvas.data@[i]
                == paper.data@[i],
{
    let op = cfg.ink_opacity_milli;
    let w = paper.width;
    let mut canvas = copy_canvas(paper);
    let ghost mid = fold_masks(paper.data@, w as int, glyph_masks@, *normal, *rough, op as int, 1);
    let ghost fin = fold_masks(mid, w as int, redaction_masks@, *normal, *rough, op as int, 4);
    let gn = glyph_masks.len();
    let mut k: usize = 0;
    proof {
        assert(glyph_masks@.skip(0) =~= glyph_masks@);
    }
    while k < gn
        invariant
            0 <= k <= gn,
            gn == glyph_masks@.len(),
            canvas.wf(),
            canvas.width == paper.width,
            canvas.height == paper.height,
            w == paper.width,
            op == cfg.ink_opacity_milli,
            op <= 1000,
            paper.wf(),
            normal.wf(),
            rough.wf(),
            normal.width == w,
            normal.height == paper.height,
            rough.width == w,
            rough.height == paper.height,
            forall|t: int| 0 <= t < gn ==> (#[trigger] glyph_masks@[t]).mask.wf(),
            mid == fold_masks(
                canvas.data@,
                w as int,
                glyph_masks@.skip(k as int),
                *normal,
                *rough,
                op as int,
                1,
            ),
        decreases gn - k,
    {
        let ghost before = canvas.data@;
        let pm = &glyph_masks[k];
        blend_ink(&mut canvas, &pm.mask, normal, rough, pm.x0, pm.y0, op);
        proof {
            let cur = glyph_masks@.skip(k as int);
            assert(cur[0] == glyph_masks@[k as int]);
            assert(cur.drop_first() =~= glyph_masks@.skip(k + 1));
            let bf = blend_full(
                before,
                w as int,
                cur[0].mask,
                *normal,
                *rough,
                cur[0].x0 as int,
                cur[0].y0 as int,
                op as int,
            );
            assert(apply_passes(before, w as int, cur[0], *normal, *rough, op as int, 1)
                == apply_passes(bf, w as int, cur[0], *normal, *rough, op as int, 0));
            assert(apply_passes(bf, w as int, cur[0], *normal, *rough, op as int, 0) == bf);
        }
        k += 1;
    }
    proof {
        assert(glyph_masks@.skip(gn as int) =~= Seq::<PlacedMask>::empty());
        assert(mid == canvas.data@);
        assert(redaction_masks@.skip(0) =~= redaction_masks@);
    }
    let rn = redaction_masks.len();
    let mut j: usize = 0;
    while j < rn
        invariant
            0 <= j <= rn,
            rn == redaction_masks@.len(),
            canvas.wf(),
            canvas.width == paper.width,
            canvas.height == paper.height,
            w == paper.width,
            op == cfg.ink_opacity_milli,
            op <= 1000,
            paper.wf(),
            normal.wf(),
            rough.wf(),
            normal.width == w,
            normal.height == paper.height,
            rough.width == w,
            rough.height == paper.height,
            forall|t: int| 0 <= t < rn ==> (#[trigger] redaction_masks@[t]).mask.wf(),
            fin == fold_masks(
                canvas.data@,
                w as int,
                redaction_masks@.skip(j as int),
                *normal,
                *rough,
                op as int,
                4,
            ),
        decreases rn - j,
    {
        let ghost start = canvas.data@;
        let pm = &redaction_masks[j];
        let mut p: usize = 0;
        while p < 4
            invariant
                0 <= p <= 4,
                canvas.wf(),
                canvas.width == paper.width,
                canvas.height == paper.height,
                w == paper.width,
                op <= 1000,
                normal.wf(),
                rough.wf(),
                normal.width == w,
                normal.height == paper.height,
                rough.width == w,
                rough.height == paper.height,
                pm.mask.wf(),
                pm == redaction_masks@[j as int],
                0 <= j < rn,
                rn == redaction_masks@.len(),
                canvas.data@ == apply_passes(
                    start,
                    w as int,
                    *pm,
                    *normal,
                    *rough,
                    op as int,
                    p as nat,
                ),
            decreases 4 - p,
        {
            let ghost before = canvas.data@;
            blend_ink(&mut canvas, &pm.mask, normal, rough, pm.x0, pm.y0, op);
            proof {
                lemma_apply_snoc(start, w as int, *pm, *normal, *rough, op as int, p as nat);
            }
            p += 1;
        }
        proof {
            let cur = redaction_masks@.skip(j as int);
            assert(cur[0] == redaction_masks@[j as int]);
            assert(cur.drop_first() =~= redaction_masks@.skip(j + 1));
        }
        j += 1;
    }
    proof {
        assert(redaction_masks@.skip(rn as int) =~= Seq::<PlacedMask>::empty());
        assert(fin == canvas.data@);
        lemma_fold_darkens(
            paper.data@,
            w as int,
            glyph_masks@,
            *normal,
            *rough,
            op as int,
            1,
        );
        lemma_fold_darkens(mid, w as int, redaction_masks@, *normal, *rough, op as int, 4);
    }
    canvas
}

/// Two distinct pixel coordinates have distinct buffer indices.
proof fn lemma_mask_idx_inj(w: int, x1: int, y1: int, x2: int, y2: int)
    requires
        w >= 1,
        0 <= x1 < w,
        0 <= x2 < w,
        0 <= y1,
        0 <= y2,
        y1 * w + x1 == y2 * w + x2,
    ensures
        x1 == x2 && y1 == y2,
{
    let p = y1 * w + x1;
    assert(p >= 0) by (nonlinear_arith)
        requires
            y1 >= 0,
            w >= 1,
            x1 >= 0,
            p == y1 * w + x1,
    ;
    vstd::arithmetic::div_mod::lemma_fundamental_div_mod_converse(p, w, y1, x1);
    vstd::arithmetic::div_mod::lemma_fundamental_div_mod_converse(p, w, y2, x2);
}

/// A coordinate clamped to the unsigned raster range.
pub open spec fn clamp_u32(v: int) -> int {
    if v < 0 {
        0
    } else if v > 0xFFFF_FFFF {
        0xFFFF_FFFF
    } else {
        v
    }
}

/// Clamp a page coordinate to the unsigned raster range.
pub fn clamp_coord(v: i64) -> (r: u32)
    ensures
        r as int == clamp_u32(v as int),
{
    if v < 0 {
        0
    } else if v > 0xFFFF_FFFF {
        0xFFFF_FFFF
    } else {
        v as u32
    }
}

/// Where a glyph's blurred mask lands on the canvas: the baseline position
/// plus the rasterizer's bounding-box offset, with a vertical jitter drawn
/// uniformly from half the configured jitter interval either way, clamped
/// to the canvas range.
pub fn place_glyph(
    inst: &GlyphInstance,
    off_x: i64,
    off_y: i64,
    cfg: &Config,
    rng: &mut fastrand::Rng,
) -> (r: (u32, u32))
    requires
        cfg.wf(),
        -0x1000_0000_0000_0000 <= inst.pos.x <= 0x1000_0000_0000_0000,
        -0x1000_0000_0000_0000 <= inst.pos.y <= 0x1000_0000_0000_0000,
        -0x4000_0000 <= off_x <= 0x4000_0000,
        -0x4000_0000 <= off_y <= 0x4000_0000,
    ensures
        r.0 as int == clamp_u32(inst.pos.x + off_x),
        clamp_u32(inst.pos.y + off_y - cfg.jitter_px as int / 2) <= r.1 as int <= clamp_u32(
            inst.pos.y + off_y + cfg.jitter_px as int / 2,
        ),
{
    let j2 = (cfg.jitter_px / 2) as i64;
    let dy = rng_in_range(rng, -j2, j2);
    let x0 = clamp_coord(inst.pos.x + off_x);
    let y0 = clamp_coord(inst.pos.y + off_y + dy);
    (x0, y0)
}

/// Build the noise-filled box for one closed redaction span, and the canvas
/// position of its top-left corner.
///
/// The box is the span's width and 1.2 times its thickness, with a
/// five-pixel margin all round for bleed; its interior is random noise
/// centered near a mid gray (never below a visible floor), its margin is
/// clear. The corner sits one margin left of the span's start and one
/// thickness above the baseline, jittered by up to half the configured
/// jitter interval in each direction.
pub fn redaction_box(red: &Redaction, cfg: &Config, rng: &mut fastrand::Rng) -> (r: (Mask, i64, i64))
    requires
        cfg.wf(),
        red.end is Some,
        red.start.x <= red.end->0.x,
        red.end->0.x - red.start.x <= 16374,
        red.thickness as int * 6 / 5 <= 16374,
        -0x1000_0000_0000_0000 <= red.start.x <= 0x1000_0000_0000_0000,
        -0x1000_0000_0000_0000 <= red.start.y <= 0x1000_0000_0000_0000,
    ensures
        r.0.wf(),
        r.0.width == red.end->0.x - red.start.x + 10,
        r.0.height == red.thickness as int * 6 / 5 + 10,
        forall|x: int, y: int|
            0 <= x < r.0.width && 0 <= y < r.0.height ==> if 5 <= x < r.0.width - 5 && 5 <= y
                < r.0.height - 5 {
                100 <= #[trigger] r.0.at(x, y) <= 255
            } else {
                r.0.at(x, y) == 0
            },
        red.start.x - 5 - cfg.jitter_px as int / 2 <= r.1 <= red.start.x - 5 + cfg.jitter_px
            as int / 2,
        red.start.y - red.thickness - 5 - cfg.jitter_px as int / 2 <= r.2 <= red.start.y
            - red.thickness - 5 + cfg.jitter_px as int / 2,
{
    let e = match red.end {
        Some(p) => p,
        None => red.start,
    };
    let w: u32 = (e.x - red.start.x) as u32 + 10;
    let h: u32 = (red.thickness as u64 * 6 / 5) as u32 + 10;
    proof {
        assert((w as int) * (h as int) <= 16384 * 16384) by (nonlinear_arith)
            requires
                0 <= w <= 16384,
                0 <= h <= 16384,
        ;
    }
    let total = (w as usize) * (h as usize);
    let mut data: Vec<u8> = Vec::new();
    let mut i: usize = 0;
    while i < total
        invariant
            0 <= i <= total,
            total == (w as int) * (h as int),
            total <= 16384 * 16384,
            data@.len() == i,
            forall|t: int| 0 <= t < i ==> data@[t] == 0,
        decreases total - i,
    {
        data.push(0u8);
        i += 1;
    }
    let mut mask = Mask { width: w, height: h, data };
    proof {
        assert forall|xx: int, yy: int| 0 <= xx < w && 0 <= yy < h implies mask.at(xx, yy)
            == 0 by {
            assert(yy * (w as int) + xx < (h as int) * (w as int)) by (nonlinear_arith)
                requires
                    0 <= xx < w,
                    0 <= yy < h,
            ;
            assert((h as int) * (w as int) == (w as int) * (h as int)) by (nonlinear_arith);
            assert(yy * (w as int) + xx >= 0) by (nonlinear_arith)
                requires
                    0 <= xx,
                    0 <= yy,
                    w >= 1,
            ;
        }
    }
    let mut x: u32 = 5;
    while x < w - 5
        invariant
            5 <= x <= w - 5,
            10 <= w <= 16384,
            10 <= h <= 16384,
            cfg.wf(),
            mask.width == w,
            mask.height == h,
            mask.data@.len() == (w as int) * (h as int),
            forall|xx: int, yy: int|
                0 <= xx < w && 0 <= yy < h ==> if 5 <= xx < x && 5 <= yy < h - 5 {
                    100 <= #[trigger] mask.at(xx, yy) <= 255
                } else {
                    mask.at(xx, yy) == 0
                },
        decreases w - x,
    {
        let mut y: u32 = 5;
        while y < h - 5
            invariant
                5 <= x < w - 5,
                5 <= y <= h - 5,
                10 <= w <= 16384,
                10 <= h <= 16384,
                cfg.wf(),
                mask.width == w,
                mask.height == h,
                mask.data@.len() == (w as int) * (h as int),
                forall|xx: int, yy: int|
                    0 <= xx < w && 0 <= yy < h ==> if (5 <= xx < x && 5 <= yy < h - 5) || (xx == x
                        && 5 <= yy < y) {
                        100 <= #[trigger] mask.at(xx, yy) <= 255
                    } else {
                        mask.at(xx, yy) == 0
                    },
            decreases h - y,
        {
            let v = rng_in_range(rng, 100, 1100);
            let b: u8 = if v > 255 {
                255
            } else {
                v as u8
            };
            let ghost oldmask = mask;
            let ghost before = mask.data@;
            proof {
                assert((y as int) * (w as int) + (x as int) < (h as int) * (w as int))
                    by (nonlinear_arith)
                    requires
                        0 <= x < w,
                        0 <= y < h,
                ;
                assert((h as int) * (w as int) == (w as int) * (h as int)) by (nonlinear_arith);
                assert((h as int) * (w as int) <= 16384 * 16384) by (nonlinear_arith)
                    requires
                        0 <= w <= 16384,
                        0 <= h <= 16384,
                ;
            }
            mask.data.set((y as usize) * (w as usize) + (x as usize), b);
            proof {
                assert forall|xx: int, yy: int|
                    0 <= xx < w && 0 <= yy < h implies if (5 <= xx < x && 5 <= yy < h - 5) || (xx
                    == x && 5 <= yy < y + 1) {
                    100 <= #[trigger] mask.at(xx, yy) <= 255
                } else {
                    mask.at(xx, yy) == 0
                } by {
                    assert((yy) * (w as int) + (xx) < (h as int) * (w as int)) by (nonlinear_arith)
                        requires
                            0 <= xx < w,
                            0 <= yy < h,
                    ;
                    if yy * (w as int) + xx == (y as int) * (w as int) + (x as int) {
                        lemma_mask_idx_inj(w as int, xx, yy, x as int, y as int);
                        assert(mask.at(xx, yy) == b);
                    } else {
                        assert(mask.at(xx, yy) == oldmask.at(xx, yy));
                    }
                }
            }
            y += 1;
        }
        x += 1;
    }
    let j2 = (cfg.jitter_px / 2) as i64;
    let dx = rng_in_range(rng, -j2, j2);
    let dy = rng_in_range(rng, -j2, j2);
    let cx = red.start.x - 5 + dx;
    let cy = red.start.y - red.thickness as i64 + dy - 5;
    proof {
        assert forall|xx: int, yy: int|
            0 <= xx < mask.width && 0 <= yy < mask.height implies if 5 <= xx < mask.width - 5 && 5
            <= yy < mask.height - 5 {
            100 <= #[trigger] mask.at(xx, yy) <= 255
        } else {
            mask.at(xx, yy) == 0
        } by {}
    }
    (mask, cx, cy)
}

/// The three paper-surface textures of a page: color, surface normal (its
/// blue channel is the facing component), and roughness. All three share
/// one set of pixel dimensions.
#[derive(Debug, Clone)]
pub struct PageTextures {
    /// The paper color texture the canvas starts from.
    pub albedo: Canvas,
    /// The surface normal texture.
    pub normal: Canvas,
    /// The surface roughness texture.
    pub roughness: Mask,
}

impl PageTextures {
    /// All three textures are well formed and share their dimensions.
    pub open spec fn wf(self) -> bool {
        &&& self.albedo.wf()
        &&& self.normal.wf()
        &&& self.roughness.wf()
        &&& self.normal.width == self.albedo.width
        &&& self.normal.height == self.albedo.height
        &&& self.roughness.width == self.albedo.width
        &&& self.roughness.height == self.albedo.height
    }
}

} // verus!
