//! The raster quantization engine: walks the pixel grid in row-major order,
//! replaces each non-transparent pixel with its nearest candidate, records
//! the chosen index, and optionally diffuses the quantization error to the
//! four forward neighbors of the Floyd–Steinberg kernel.

use vstd::prelude::*;
use crate::color::Color;
use crate::palette::{colors_of, Candidate, Palette};
use crate::resolve::{best_index, lemma_best_index, resolve};

verus! {

/// A decoded raster: a flat row-major, channel-interleaved byte buffer with
/// its dimensions and its bytes-per-pixel stride (3 for RGB, 4 for RGBA).
#[derive(Debug)]
pub struct Image {
    pub buf: Vec<u8>,
    pub width: usize,
    pub height: usize,
    pub bpp: usize,
}

/// Why a raw buffer cannot be taken as an image.
#[derive(Clone, Copy, PartialEq, Eq, Structural, Debug)]
pub enum ImageError {
    /// The stride is neither 3 nor 4 bytes per pixel.
    UnsupportedDepth,
    /// The buffer length is not width times height times stride.
    SizeMismatch,
}

impl Image {
    pub open spec fn wf(self) -> bool {
        &&& (self.bpp == 3 || self.bpp == 4)
        &&& self.buf@.len() == self.width * self.height * self.bpp
    }

    /// Takes a decoded buffer as an image, rejecting an unsupported stride or
    /// a buffer whose length does not match the dimensions.
    pub fn new(width: usize, height: usize, bpp: usize, buf: Vec<u8>) -> (r: Result<
        Image,
        ImageError,
    >)
        ensures
            match r {
                Ok(img) => {
                    &&& img.wf()
                    &&& img.width == width && img.height == height && img.bpp == bpp
                    &&& img.buf@ == buf@
                },
                Err(ImageError::UnsupportedDepth) => !(bpp == 3 || bpp == 4),
                Err(ImageError::SizeMismatch) => (bpp == 3 || bpp == 4) && buf@.len() != width
                    * height * bpp,
            },
    {
        if !(bpp == 3 || bpp == 4) {
            return Err(ImageError::UnsupportedDepth);
        }
        let buf_len = buf.len();
        let area = match width.checked_mul(height) {
            Some(a) => a,
            None => {
                proof {
                    assert(width * height * bpp >= width * height) by (nonlinear_arith)
                        requires width * height > usize::MAX && bpp >= 3;
                }
                return Err(ImageError::SizeMismatch);
            },
        };
        let bytes = match area.checked_mul(bpp) {
            Some(b) => b,
            None => {
                return Err(ImageError::SizeMismatch);
            },
        };
        if buf_len != bytes {
            return Err(ImageError::SizeMismatch);
        }
        Ok(Image { buf, width, height, bpp })
    }
}

/// The color stored at pixel position `pos` of the flat buffer.
pub open spec fn pix_at(buf: Seq<u8>, bpp: int, pos: int) -> Color {
    Color { r: buf[pos * bpp], g: buf[pos * bpp + 1], b: buf[pos * bpp + 2] }
}

/// A pixel is skipped when the buffer carries an alpha channel and it is zero.
pub open spec fn transparent_at(buf: Seq<u8>, bpp: int, pos: int) -> bool {
    bpp == 4 && buf[pos * 4 + 3] == 0
}

/// The buffer with the RGB channels of pixel `pos` overwritten by `c`.
pub open spec fn write_color(buf: Seq<u8>, bpp: int, pos: int, c: Color) -> Seq<u8> {
    buf.update(pos * bpp, c.r).update(pos * bpp + 1, c.g).update(pos * bpp + 2, c.b)
}

/// `round(n / 16)`, rounding half away from zero.
pub open spec fn round_frac(n: int) -> int {
    if n >= 0 {
        (n + 8) / 16
    } else {
        -((-n + 8) / 16)
    }
}

pub open spec fn clamp255(v: int) -> u8 {
    if v < 0 {
        0
    } else if v > 255 {
        255
    } else {
        v as u8
    }
}

/// A channel after receiving the weighted share `wt/16` of the signed error
/// `err`, clamped to the 8-bit range at both ends.
pub open spec fn diffused(cur: u8, err: int, wt: int) -> u8 {
    clamp255(cur + round_frac(err * wt))
}

/// The buffer after pixel `pos` receives the share `wt/16` of the signed
/// per-channel errors.
pub open spec fn diffuse3(
    buf: Seq<u8>,
    bpp: int,
    pos: int,
    er: int,
    eg: int,
    eb: int,
    wt: int,
) -> Seq<u8> {
    buf.update(pos * bpp, diffused(buf[pos * bpp], er, wt)).update(
        pos * bpp + 1,
        diffused(buf[pos * bpp + 1], eg, wt),
    ).update(pos * bpp + 2, diffused(buf[pos * bpp + 2], eb, wt))
}

pub(crate) proof fn lemma_grid_pos(x: int, y: int, w: int, h: int)
    requires
        0 <= x < w,
        0 <= y < h,
    ensures
        0 <= y * w + x < w * h,
{
    assert(0 <= y * w + x < w * h) by (nonlinear_arith)
        requires 0 <= x < w && 0 <= y < h;
}

proof fn lemma_pos_bytes(pos: int, bpp: int, w: int, h: int, len: int)
    requires
        0 <= pos < w * h,
        len == w * h * bpp,
        3 <= bpp,
    ensures
        pos * bpp >= 0,
        pos * bpp + bpp <= len,
{
    assert(pos * bpp >= 0 && pos * bpp + bpp <= w * h * bpp) by (nonlinear_arith)
        requires 0 <= pos < w * h && 3 <= bpp;
}

proof fn lemma_total(w: int, h: int, bpp: int, len: int)
    requires
        len == w * h * bpp,
        3 <= bpp,
        0 <= w,
        0 <= h,
    ensures
        w * h <= len,
{
    assert(w * h <= w * h * bpp) by (nonlinear_arith)
        requires 0 <= w * h && 3 <= bpp;
    assert(w * h >= 0) by (nonlinear_arith)
        requires 0 <= w && 0 <= h;
}

proof fn lemma_rowmajor(x: int, y: int, w: int)
    requires
        0 <= x < w,
        0 <= y,
    ensures
        (y * w + x) % w == x,
        (y * w + x) / w == y,
{
    assert((y * w + x) % w == x && (y * w + x) / w == y) by (nonlinear_arith)
        requires 0 <= x < w && 0 <= y;
}

/// One channel of one neighbor after diffusion: adds `round(err * wt / 16)`
/// to the current value, saturating at 0 and at 255. The error is passed as
/// the original and resolved channel values, `err = orig - resolved`.
pub fn diffuse_channel(cur: u8, orig: u8, resolved: u8, wt: u32) -> (r: u8)
    requires
        1 <= wt <= 7,
    ensures
        r == diffused(cur, orig - resolved, wt as int),
{
    if orig >= resolved {
        let d: u32 = (orig - resolved) as u32;
        proof {
            assert(d * wt <= 255 * 7) by (nonlinear_arith)
                requires d <= 255 && wt <= 7;
        }
        let mag: u32 = d * wt;
        proof {
            assert((orig - resolved) * (wt as int) == mag as int) by (nonlinear_arith)
                requires mag == d * wt && d == orig - resolved;
        }
        let add: u32 = (mag + 8) / 16;
        let v: u32 = cur as u32 + add;
        if v > 255 {
            255
        } else {
            v as u8
        }
    } else {
        let d: u32 = (resolved - orig) as u32;
        proof {
            assert(d * wt <= 255 * 7) by (nonlinear_arith)
                requires d <= 255 && wt <= 7;
        }
        let mag: u32 = d * wt;
        proof {
            assert((orig - resolved) * (wt as int) == -(mag as int) && mag >= 1)
                by (nonlinear_arith)
                requires mag == d * wt && d == resolved - orig && d >= 1 && wt >= 1;
        }
        let sub: u32 = (mag + 8) / 16;
        if cur as u32 >= sub {
            (cur as u32 - sub) as u8
        } else {
            0
        }
    }
}

/// Diffuses the weighted error share into all three channels of the pixel at
/// `pos`.
fn diffuse_pixel(img: &mut Image, pos: usize, oldc: Color, newc: Color, wt: u32)
    requires
        old(img).wf(),
        pos < old(img).width * old(img).height,
        1 <= wt <= 7,
    ensures
        final(img).wf(),
        final(img).width == old(img).width,
        final(img).height == old(img).height,
        final(img).bpp == old(img).bpp,
        final(img).buf@ == diffuse3(
            old(img).buf@,
            old(img).bpp as int,
            pos as int,
            oldc.r - newc.r,
            oldc.g - newc.g,
            oldc.b - newc.b,
            wt as int,
        ),
{
    let len = img.buf.len();
    proof {
        lemma_pos_bytes(
            pos as int,
            old(img).bpp as int,
            old(img).width as int,
            old(img).height as int,
            len as int,
        );
    }
    let base = pos * img.bpp;
    let v0 = diffuse_channel(img.buf[base], oldc.r, newc.r, wt);
    img.buf[base] = v0;
    let v1 = diffuse_channel(img.buf[base + 1], oldc.g, newc.g, wt);
    img.buf[base + 1] = v1;
    let v2 = diffuse_channel(img.buf[base + 2], oldc.b, newc.b, wt);
    img.buf[base + 2] = v2;
}

/// What visiting position `(x, y)` does to the buffer and the choice array:
/// a transparent pixel is skipped whole; otherwise the pixel is replaced by
/// its nearest candidate, the index is recorded at `y*w + x`, and with
/// dithering on, the signed quantization error is shared out to the four
/// forward neighbors (weights 7, 3, 5, 1 of sixteenths) that exist inside
/// the grid.
pub open spec fn step(
    buf: Seq<u8>,
    ch: Seq<Option<usize>>,
    pal: Seq<Color>,
    w: int,
    h: int,
    bpp: int,
    dither: bool,
    x: int,
    y: int,
) -> (Seq<u8>, Seq<Option<usize>>) {
    let pos = y * w + x;
    if transparent_at(buf, bpp, pos) {
        (buf, ch)
    } else {
        let oldc = pix_at(buf, bpp, pos);
        let k = best_index(oldc, pal, pal.len() as int);
        let newc = pal[k];
        let b1 = write_color(buf, bpp, pos, newc);
        let ch1 = ch.update(pos, Some(k as usize));
        if !dither {
            (b1, ch1)
        } else {
            let er = oldc.r - newc.r;
            let eg = oldc.g - newc.g;
            let eb = oldc.b - newc.b;
            let b2 = if x + 1 < w {
                diffuse3(b1, bpp, pos + 1, er, eg, eb, 7)
            } else {
                b1
            };
            let b3 = if x > 0 && y + 1 < h {
                diffuse3(b2, bpp, pos + w - 1, er, eg, eb, 3)
            } else {
                b2
            };
            let b4 = if y + 1 < h {
                diffuse3(b3, bpp, pos + w, er, eg, eb, 5)
            } else {
                b3
            };
            let b5 = if x + 1 < w && y + 1 < h {
                diffuse3(b4, bpp, pos + w + 1, er, eg, eb, 1)
            } else {
                b4
            };
            (b5, ch1)
        }
    }
}

/// The buffer and choice array after the first `n` grid positions have been
/// visited in row-major order.
pub open spec fn run(
    buf: Seq<u8>,
    ch: Seq<Option<usize>>,
    pal: Seq<Color>,
    w: int,
    h: int,
    bpp: int,
    dither: bool,
    n: int,
) -> (Seq<u8>, Seq<Option<usize>>)
    decreases n,
{
    if n <= 0 {
        (buf, ch)
    } else {
        let prev = run(buf, ch, pal, w, h, bpp, dither, n - 1);
        step(prev.0, prev.1, pal, w, h, bpp, dither, (n - 1) % w, (n - 1) / w)
    }
}

/// A choice array of `n` positions, none visited yet.
pub open spec fn no_choices(n: int) -> Seq<Option<usize>> {
    Seq::new(n as nat, |i: int| None)
}

/// Visits one grid position: skips it if transparent, otherwise resolves the
/// pixel, overwrites it, records the chosen index, and diffuses the error
/// forward when dithering is on.
fn process_pixel(
    img: &mut Image,
    choices: &mut Vec<Option<usize>>,
    entries: &Vec<Candidate>,
    dither: bool,
    x: usize,
    y: usize,
)
    requires
        old(img).wf(),
        x < old(img).width,
        y < old(img).height,
        old(choices)@.len() == old(img).width * old(img).height,
        entries@.len() >= 1,
    ensures
        final(img).wf(),
        final(img).width == old(img).width,
        final(img).height == old(img).height,
        final(img).bpp == old(img).bpp,
        ({
            let r = step(
                old(img).buf@,
                old(choices)@,
                colors_of(entries@),
                old(img).width as int,
                old(img).height as int,
                old(img).bpp as int,
                dither,
                x as int,
                y as int,
            );
            final(img).buf@ == r.0 && final(choices)@ == r.1
        }),
{
    let w = img.width;
    let h = img.height;
    let bpp = img.bpp;
    let len = img.buf.len();
    proof {
        lemma_grid_pos(x as int, y as int, w as int, h as int);
        lemma_total(w as int, h as int, bpp as int, len as int);
    }
    let pos = y * w + x;
    proof {
        lemma_pos_bytes(pos as int, bpp as int, w as int, h as int, len as int);
    }
    let base = pos * bpp;
    if bpp == 4 && img.buf[base + 3] == 0 {
        return ;
    }
    let oldc = Color { r: img.buf[base], g: img.buf[base + 1], b: img.buf[base + 2] };
    proof {
        assert(oldc == pix_at(img.buf@, bpp as int, pos as int));
    }
    let (newc, k) = resolve(oldc, entries);
    img.buf[base] = newc.r;
    img.buf[base + 1] = newc.g;
    img.buf[base + 2] = newc.b;
    choices[pos] = Some(k);
    proof {
        assert(img.buf@ == write_color(old(img).buf@, bpp as int, pos as int, newc));
        assert(choices@ == old(choices)@.update(pos as int, Some(k)));
    }
    if dither {
        if x + 1 < w {
            proof {
                lemma_grid_pos(x + 1, y as int, w as int, h as int);
            }
            diffuse_pixel(img, pos + 1, oldc, newc, 7);
        }
        if x > 0 && y + 1 < h {
            proof {
                lemma_grid_pos(x - 1, y + 1, w as int, h as int);
                assert((y + 1) * w + (x - 1) == pos + w - 1) by (nonlinear_arith)
                    requires pos == y * w + x;
            }
            diffuse_pixel(img, pos + w - 1, oldc, newc, 3);
        }
        if y + 1 < h {
            proof {
                lemma_grid_pos(x as int, y + 1, w as int, h as int);
                assert((y + 1) * w + x == pos + w) by (nonlinear_arith)
                    requires pos == y * w + x;
            }
            diffuse_pixel(img, pos + w, oldc, newc, 5);
        }
        if x + 1 < w && y + 1 < h {
            proof {
                lemma_grid_pos(x + 1, y + 1, w as int, h as int);
                assert((y + 1) * w + (x + 1) == pos + w + 1) by (nonlinear_arith)
                    requires pos == y * w + x;
            }
            diffuse_pixel(img, pos + w + 1, oldc, newc, 1);
        }
    }
}

/// Quantizes every pixel of the image in row-major order against the
/// candidate palette, mutating the buffer in place and returning the choice
/// array: one recorded candidate index per non-transparent pixel, `None` at
/// skipped positions.
pub fn quantize(img: &mut Image, entries: &Vec<Candidate>, dither: bool) -> (choices: Vec<
    Option<usize>,
>)
    requires
        old(img).wf(),
        entries@.len() >= 1,
    ensures
        final(img).wf(),
        final(img).width == old(img).width,
        final(img).height == old(img).height,
        final(img).bpp == old(img).bpp,
        choices@.len() == old(img).width * old(img).height,
        ({
            let r = run(
                old(img).buf@,
                no_choices((old(img).width * old(img).height) as int),
                colors_of(entries@),
                old(img).width as int,
                old(img).height as int,
                old(img).bpp as int,
                dither,
                (old(img).width * old(img).height) as int,
            );
            final(img).buf@ == r.0 && choices@ == r.1
        }),
{
    let w = img.width;
    let h = img.height;
    let bpp = img.bpp;
    let len = img.buf.len();
    proof {
        lemma_total(w as int, h as int, bpp as int, len as int);
    }
    let total = w * h;
    let mut choices: Vec<Option<usize>> = Vec::new();
    let mut t: usize = 0;
    while t < total
        invariant
            t <= total,
            choices@.len() == t,
            forall|q: int| 0 <= q < t ==> choices@[q] is None,
        decreases total - t,
    {
        choices.push(None);
        t += 1;
    }
    proof {
        assert(choices@ =~= no_choices(total as int));
    }
    let ghost pal = colors_of(entries@);
    let mut y: usize = 0;
    while y < h
        invariant
            y <= h,
            img.wf(),
            img.width == w,
            img.height == h,
            img.bpp == bpp,
            entries@.len() >= 1,
            pal == colors_of(entries@),
            total == w * h,
            choices@.len() == total,
            ({
                let r = run(
                    old(img).buf@,
                    no_choices(total as int),
                    pal,
                    w as int,
                    h as int,
                    bpp as int,
                    dither,
                    (y * w) as int,
                );
                img.buf@ == r.0 && choices@ == r.1
            }),
        decreases h - y,
    {
        proof {
            assert(y * w <= h * w && (y + 1) * w <= h * w) by (nonlinear_arith)
                requires y < h && w >= 0;
        }
        let mut x: usize = 0;
        while x < w
            invariant
                x <= w,
                y < h,
                img.wf(),
                img.width == w,
                img.height == h,
                img.bpp == bpp,
                entries@.len() >= 1,
                pal == colors_of(entries@),
                total == w * h,
                choices@.len() == total,
                y * w + x <= total,
                ({
                    let r = run(
                        old(img).buf@,
                        no_choices(total as int),
                        pal,
                        w as int,
                        h as int,
                        bpp as int,
                        dither,
                        (y * w + x) as int,
                    );
                    img.buf@ == r.0 && choices@ == r.1
                }),
            decreases w - x,
        {
            proof {
                lemma_grid_pos(x as int, y as int, w as int, h as int);
            }
            process_pixel(img, &mut choices, entries, dither, x, y);
            proof {
                lemma_rowmajor(x as int, y as int, w as int);
                assert(y * w + x + 1 <= total) by (nonlinear_arith)
                    requires y * w + x < w * h && total == w * h;
            }
            x += 1;
        }
        proof {
            assert(y * w + w == (y + 1) * w) by (nonlinear_arith);
        }
        y += 1;
    }
    proof {
        assert(h * w == w * h) by (nonlinear_arith);
    }
    choices
}

/// Every index the engine records is a valid palette index, and the choice
/// array keeps its length.
pub proof fn lemma_run_choices(
    buf: Seq<u8>,
    ch: Seq<Option<usize>>,
    pal: Seq<Color>,
    w: int,
    h: int,
    bpp: int,
    dither: bool,
    n: int,
)
    requires
        pal.len() >= 1,
        w >= 0,
        h >= 0,
        ch.len() == w * h,
        0 <= n <= w * h,
        forall|p: int|
            0 <= p < ch.len() ==> (#[trigger] ch[p] matches Some(k) ==> k < pal.len()),
    ensures
        run(buf, ch, pal, w, h, bpp, dither, n).1.len() == ch.len(),
        forall|p: int|
            0 <= p < ch.len() ==> (#[trigger] run(buf, ch, pal, w, h, bpp, dither, n).1[p] matches
                Some(k) ==> k < pal.len()),
    decreases n,
{
    if n > 0 {
        lemma_run_choices(buf, ch, pal, w, h, bpp, dither, n - 1);
        let prev = run(buf, ch, pal, w, h, bpp, dither, n - 1);
        assert(w > 0) by (nonlinear_arith)
            requires 0 < n <= w * h && w >= 0 && h >= 0;
        let x = (n - 1) % w;
        let y = (n - 1) / w;
        assert(y * w + x == n - 1) by (nonlinear_arith)
            requires w > 0 && x == (n - 1) % w && y == (n - 1) / w;
        if !transparent_at(prev.0, bpp, n - 1) {
            let oldc = pix_at(prev.0, bpp, n - 1);
            lemma_best_index(oldc, pal, pal.len() as int);
        }
    }
}

proof fn lemma_diffuse3_alpha(b: Seq<u8>, q: int, er: int, eg: int, eb: int, wt: int, p: int)
    requires
        0 <= q,
        0 <= p,
        4 * q + 2 < b.len(),
        4 * p + 3 < b.len(),
    ensures
        diffuse3(b, 4, q, er, eg, eb, wt).len() == b.len(),
        diffuse3(b, 4, q, er, eg, eb, wt)[4 * p + 3] == b[4 * p + 3],
{
    assert(q * 4 != 4 * p + 3 && q * 4 + 1 != 4 * p + 3 && q * 4 + 2 != 4 * p + 3)
        by (nonlinear_arith)
        requires 0 <= q && 0 <= p;
}

proof fn lemma_write_color_alpha(b: Seq<u8>, q: int, c: Color, p: int)
    requires
        0 <= q,
        0 <= p,
        4 * q + 2 < b.len(),
        4 * p + 3 < b.len(),
    ensures
        write_color(b, 4, q, c).len() == b.len(),
        write_color(b, 4, q, c)[4 * p + 3] == b[4 * p + 3],
{
    assert(q * 4 != 4 * p + 3 && q * 4 + 1 != 4 * p + 3 && q * 4 + 2 != 4 * p + 3)
        by (nonlinear_arith)
        requires 0 <= q && 0 <= p;
}

/// The engine never writes an alpha byte: in an RGBA raster, every pixel's
/// alpha channel still holds its original value after any number of
/// quantization steps, dithered or not.
pub proof fn lemma_alpha_preserved(
    buf: Seq<u8>,
    ch: Seq<Option<usize>>,
    pal: Seq<Color>,
    w: int,
    h: int,
    dither: bool,
    n: int,
    p: int,
)
    requires
        w >= 0,
        h >= 0,
        buf.len() == w * h * 4,
        0 <= n <= w * h,
        0 <= p < w * h,
    ensures
        run(buf, ch, pal, w, h, 4, dither, n).0.len() == buf.len(),
        run(buf, ch, pal, w, h, 4, dither, n).0[4 * p + 3] == buf[4 * p + 3],
    decreases n,
{
    if n > 0 {
        lemma_alpha_preserved(buf, ch, pal, w, h, dither, n - 1, p);
        let prev = run(buf, ch, pal, w, h, 4, dither, n - 1);
        assert(w > 0) by (nonlinear_arith)
            requires 0 < n <= w * h && w >= 0 && h >= 0;
        let x = (n - 1) % w;
        let y = (n - 1) / w;
        assert(y * w + x == n - 1 && 0 <= x < w && 0 <= y < h) by (nonlinear_arith)
            requires
                w > 0 && h >= 0 && 0 < n <= w * h && x == (n - 1) % w && y == (n - 1) / w,
        ;
        let pos = n - 1;
        assert(4 * p + 3 < prev.0.len());
        if !transparent_at(prev.0, 4, pos) {
            let oldc = pix_at(prev.0, 4, pos);
            let k = best_index(oldc, pal, pal.len() as int);
            let newc = pal[k];
            lemma_pos_bytes(pos, 4, w, h, buf.len() as int);
            lemma_write_color_alpha(prev.0, pos, newc, p);
            let b1 = write_color(prev.0, 4, pos, newc);
            if dither {
                let er = oldc.r - newc.r;
                let eg = oldc.g - newc.g;
                let eb = oldc.b - newc.b;
                let b2 = if x + 1 < w {
                    lemma_grid_pos(x + 1, y, w, h);
                    lemma_pos_bytes(pos + 1, 4, w, h, buf.len() as int);
                    lemma_diffuse3_alpha(b1, pos + 1, er, eg, eb, 7, p);
                    diffuse3(b1, 4, pos + 1, er, eg, eb, 7)
                } else {
                    b1
                };
                let b3 = if x > 0 && y + 1 < h {
                    lemma_grid_pos(x - 1, y + 1, w, h);
                    assert((y + 1) * w + (x - 1) == pos + w - 1) by (nonlinear_arith)
                        requires pos == y * w + x;
                    lemma_pos_bytes(pos + w - 1, 4, w, h, buf.len() as int);
                    lemma_diffuse3_alpha(b2, pos + w - 1, er, eg, eb, 3, p);
                    diffuse3(b2, 4, pos + w - 1, er, eg, eb, 3)
                } else {
                    b2
                };
                let b4 = if y + 1 < h {
                    lemma_grid_pos(x, y + 1, w, h);
                    assert((y + 1) * w + x == pos + w) by (nonlinear_arith)
                        requires pos == y * w + x;
                    lemma_pos_bytes(pos + w, 4, w, h, buf.len() as int);
                    lemma_diffuse3_alpha(b3, pos + w, er, eg, eb, 5, p);
                    diffuse3(b3, 4, pos + w, er, eg, eb, 5)
                } else {
                    b3
                };
                if x + 1 < w && y + 1 < h {
                    lemma_grid_pos(x + 1, y + 1, w, h);
                    assert((y + 1) * w + (x + 1) == pos + w + 1) by (nonlinear_arith)
                        requires pos == y * w + x;
                    lemma_pos_bytes(pos + w + 1, 4, w, h, buf.len() as int);
                    lemma_diffuse3_alpha(b4, pos + w + 1, er, eg, eb, 1, p);
                }
            }
        }
    }
}

/// In an RGBA raster, a position records a choice exactly when its pixel is
/// not transparent in the original buffer: visited positions record one
/// index each, skipped ones stay `None`, and unvisited ones are untouched.
pub proof fn lemma_choices_match_transparency(
    buf: Seq<u8>,
    ch: Seq<Option<usize>>,
    pal: Seq<Color>,
    w: int,
    h: int,
    dither: bool,
    n: int,
)
    requires
        w >= 0,
        h >= 0,
        buf.len() == w * h * 4,
        ch.len() == w * h,
        0 <= n <= w * h,
        forall|q: int| 0 <= q < ch.len() ==> ch[q] is None,
    ensures
        run(buf, ch, pal, w, h, 4, dither, n).1.len() == w * h,
        forall|q: int|
            0 <= q < n ==> ((#[trigger] run(buf, ch, pal, w, h, 4, dither, n).1[q]) is Some
                <==> !transparent_at(buf, 4, q)),
        forall|q: int|
            n <= q < w * h ==> (#[trigger] run(buf, ch, pal, w, h, 4, dither, n).1[q]) is None,
    decreases n,
{
    if n > 0 {
        lemma_choices_match_transparency(buf, ch, pal, w, h, dither, n - 1);
        let prev = run(buf, ch, pal, w, h, 4, dither, n - 1);
        assert(w > 0) by (nonlinear_arith)
            requires 0 < n <= w * h && w >= 0 && h >= 0;
        let x = (n - 1) % w;
        let y = (n - 1) / w;
        assert(y * w + x == n - 1 && 0 <= x < w && 0 <= y < h) by (nonlinear_arith)
            requires
                w > 0 && h >= 0 && 0 < n <= w * h && x == (n - 1) % w && y == (n - 1) / w,
        ;
        let pos = n - 1;
        lemma_alpha_preserved(buf, ch, pal, w, h, dither, n - 1, pos);
        lemma_pos_bytes(pos, 4, w, h, buf.len() as int);
        assert(transparent_at(prev.0, 4, pos) == transparent_at(buf, 4, pos));
    }
}

/// The empty-palette configuration error: quantization never starts against
/// a palette with no candidates.
#[derive(Clone, Copy, PartialEq, Eq, Structural, Debug)]
pub enum ConfigError {
    EmptyPalette,
}

/// Runs the quantization engine over the whole image, after rejecting an
/// empty palette as a configuration error before any pixel is touched.
pub fn process_image(img: &mut Image, palette: &Palette, dither: bool) -> (r: Result<
    Vec<Option<usize>>,
    ConfigError,
>)
    requires
        old(img).wf(),
    ensures
        final(img).wf(),
        final(img).width == old(img).width,
        final(img).height == old(img).height,
        final(img).bpp == old(img).bpp,
        palette.entries@.len() == 0 ==> r == Err::<Vec<Option<usize>>, ConfigError>(
            ConfigError::EmptyPalette,
        ) && *final(img) == *old(img),
        palette.entries@.len() >= 1 ==> ({
            let res = run(
                old(img).buf@,
                no_choices((old(img).width * old(img).height) as int),
                colors_of(palette.entries@),
                old(img).width as int,
                old(img).height as int,
                old(img).bpp as int,
                dither,
                (old(img).width * old(img).height) as int,
            );
            &&& r matches Ok(ch) && ch@ == res.1 && ch@.len() == old(img).width * old(
                img,
            ).height
            &&& final(img).buf@ == res.0
        }),
{
    if palette.entries.len() == 0 {
        return Err(ConfigError::EmptyPalette);
    }
    let choices = quantize(img, &palette.entries, dither);
    Ok(choices)
}

} // verus!
