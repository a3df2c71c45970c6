//! Plain raster buffers: the pixel data a decoded image hands the library
//! and the buffer the compositor produces.

use vstd::prelude::*;
use crate::fx::MAX_DIM;

verus! {

/// An RGBA color; `a == 255` is fully opaque, `a == 0` fully transparent.
#[derive(Clone, Copy, Debug, PartialEq, Eq, Structural)]
pub struct Color {
    pub r: u8,
    pub g: u8,
    pub b: u8,
    pub a: u8,
}

/// The mathematical value of a raster: its size and its bytes.
pub ghost struct RasterV {
    pub width: int,
    pub height: int,
    pub pixels: Seq<u8>,
}

impl RasterV {
    /// Four bytes per pixel, rows top to bottom, within the size cap.
    pub open spec fn wf(self) -> bool {
        &&& 0 <= self.width <= MAX_DIM as int
        &&& 0 <= self.height <= MAX_DIM as int
        &&& self.pixels.len() == 4 * self.width * self.height
    }

    /// Byte `c` (0 red, 1 green, 2 blue, 3 alpha) of the pixel at column
    /// `x`, row `y`.
    pub open spec fn at(self, x: int, y: int, c: int) -> u8 {
        self.pixels[4 * (y * self.width + x) + c]
    }
}

/// A raster image: `width × height` pixels, four bytes each (red, green,
/// blue, alpha), rows top to bottom.
pub struct Raster {
    pub width: u32,
    pub height: u32,
    pub pixels: Vec<u8>,
}

impl View for Raster {
    type V = RasterV;

    open spec fn view(&self) -> RasterV {
        RasterV { width: self.width as int, height: self.height as int, pixels: self.pixels@ }
    }
}

impl Raster {
    /// Accept a decoded pixel grid handed in by the surrounding
    /// application: the buffer must hold exactly four bytes per pixel and
    /// both extents must stay within [`MAX_DIM`].
    pub fn from_parts(width: u32, height: u32, pixels: Vec<u8>) -> (r: Option<Raster>)
        ensures
            match r {
                Some(img) => {
                    &&& img@.wf()
                    &&& img@.width == width as int
                    &&& img@.height == height as int
                    &&& img@.pixels == pixels@
                },
                None => !(RasterV {
                    width: width as int,
                    height: height as int,
                    pixels: pixels@,
                }).wf(),
            },
    {
        if width <= MAX_DIM && height <= MAX_DIM {
            proof {
                assert(0 <= 4 * (width as int) * (height as int) <= 4 * 32767 * 32767)
                    by (nonlinear_arith)
                    requires
                        0 <= (width as int),
                        (width as int) <= 32767,
                        0 <= (height as int),
                        (height as int) <= 32767,
                ;
            }
            let area: u64 = 4 * (width as u64) * (height as u64);
            if (pixels.len() as u64) == area {
                return Some(Raster { width, height, pixels });
            }
        }
        None
    }
}

} // verus!

// Pixel-level operations: fill, alpha-over blending, nearest-neighbour
// resampling and clipped overlay.

verus! {

use vstd::arithmetic::div_mod::{
    lemma_fundamental_div_mod_converse_div, lemma_fundamental_div_mod_converse_mod,
    lemma_multiply_divide_lt,
};

/// Byte `k` of a color: red, green, blue, alpha in that order.
pub open spec fn color_channel(c: Color, k: int) -> u8 {
    if k == 0 {
        c.r
    } else if k == 1 {
        c.g
    } else if k == 2 {
        c.b
    } else {
        c.a
    }
}

/// The color of the pixel at `(x, y)`.
pub open spec fn color_of(img: RasterV, x: int, y: int) -> Color {
    Color { r: img.at(x, y, 0), g: img.at(x, y, 1), b: img.at(x, y, 2), a: img.at(x, y, 3) }
}

/// The channel index (0 to 3) a flat byte position addresses.
pub open spec fn idx_c(i: int) -> int {
    i % 4
}

/// The column a flat byte position addresses, in a row of width `w`.
pub open spec fn idx_x(i: int, w: int) -> int {
    (i / 4) % w
}

/// The row a flat byte position addresses, in rows of width `w`.
pub open spec fn idx_y(i: int, w: int) -> int {
    (i / 4) / w
}

/// Flat byte positions decode to the pixel coordinates they encode.
pub proof fn lemma_pix_index(w: int, x: int, y: int, c: int)
    requires
        0 < w,
        0 <= x < w,
        0 <= y,
        0 <= c < 4,
    ensures
        idx_c(4 * (y * w + x) + c) == c,
        idx_x(4 * (y * w + x) + c, w) == x,
        idx_y(4 * (y * w + x) + c, w) == y,
{
    let p = y * w + x;
    let i = 4 * p + c;
    lemma_fundamental_div_mod_converse_div(i, 4, p, c);
    lemma_fundamental_div_mod_converse_mod(i, 4, p, c);
    assert(p * 4 == 4 * p) by (nonlinear_arith);
    lemma_fundamental_div_mod_converse_div(p, w, y, x);
    lemma_fundamental_div_mod_converse_mod(p, w, y, x);
    assert(y * w == w * y) by (nonlinear_arith);
}

/// A canvas of `w × h` pixels of the one color `c`.
pub open spec fn filled(w: int, h: int, c: Color) -> Seq<u8> {
    Seq::new((4 * (w * h)) as nat, |i: int| color_channel(c, idx_c(i)))
}

/// Straight alpha-over compositing of one source color over one
/// destination color, in 8-bit channels: a fully transparent source
/// leaves the destination; otherwise the blended alpha is
/// `round((s·255 + d·(255−s)) / 255)` and each color channel is the
/// alpha-weighted mean of the two colors, rounded to the nearest step.
pub open spec fn over(sc: Color, dc: Color) -> Color {
    if sc.a == 0 {
        dc
    } else {
        let s = sc.a as int;
        let d = dc.a as int;
        let ds = 255 - s;
        let anum = s * 255 + d * ds;
        Color {
            r: over_channel(sc.r as int, dc.r as int, s, d, ds, anum) as u8,
            g: over_channel(sc.g as int, dc.g as int, s, d, ds, anum) as u8,
            b: over_channel(sc.b as int, dc.b as int, s, d, ds, anum) as u8,
            a: ((anum + 127) / 255) as u8,
        }
    }
}

/// One blended color channel: `round((cs·s·255 + cd·d·(255−s)) / anum)`.
pub open spec fn over_channel(cs: int, cd: int, s: int, d: int, ds: int, anum: int) -> int {
    (cs * s * 255 + cd * d * ds + anum / 2) / anum
}

/// A fully opaque source color replaces the destination outright.
pub proof fn lemma_over_opaque(sc: Color, dc: Color)
    requires
        sc.a == 255,
    ensures
        over(sc, dc) == sc,
{
    let anum = 255 * 255int;
    assert forall|cs: int, cd: int| 0 <= cs <= 255 implies over_channel(cs, cd, 255, dc.a as int, 0, anum)
        == cs by {
        assert(cd * (dc.a as int) * 0 == 0) by (nonlinear_arith);
        assert(anum / 2 == 32512);
        assert(cs * 255 * 255 == cs * 65025) by (nonlinear_arith);
        assert((cs * anum + 32512) / anum == cs) by {
            lemma_fundamental_div_mod_converse_div(cs * anum + 32512, anum, cs, 32512);
        }
    }
    assert((65025int + 127) / 255 == 255);
}

/// Blended channels stay inside the 8-bit range.
proof fn lemma_over_channel_bounds(cs: int, cd: int, s: int, d: int)
    requires
        0 <= cs <= 255,
        0 <= cd <= 255,
        0 < s <= 255,
        0 <= d <= 255,
    ensures
        0 <= over_channel(cs, cd, s, d, 255 - s, s * 255 + d * (255 - s)) <= 255,
        0 < s * 255 + d * (255 - s) <= 65025,
{
    let ds = 255 - s;
    let anum = s * 255 + d * ds;
    assert(0 < s * 255 && 0 <= d * ds && anum <= 65025) by (nonlinear_arith)
        requires
            0 < s <= 255,
            0 <= d <= 255,
            ds == 255 - s,
            anum == s * 255 + d * ds,
    ;
    let num = cs * s * 255 + cd * d * ds + anum / 2;
    assert(0 <= cs * s * 255 && 0 <= cd * d * ds) by (nonlinear_arith)
        requires
            0 <= cs,
            0 < s,
            0 <= cd,
            0 <= d,
            0 <= ds,
    ;
    assert(num <= 255 * anum + anum / 2) by (nonlinear_arith)
        requires
            cs <= 255 && cd <= 255 && 0 < s && 0 <= d && 0 <= ds && anum == s * 255 + d * ds
                && num == cs * s * 255 + cd * d * ds + anum / 2,
    ;
    assert(num / anum >= 0) by {
        vstd::arithmetic::div_mod::lemma_div_pos_is_pos(num, anum);
    }
    assert((255 * anum + anum / 2) / anum == 255) by {
        lemma_fundamental_div_mod_converse_div(255 * anum + anum / 2, anum, 255, anum / 2);
    }
    assert(num / anum <= 255) by {
        vstd::arithmetic::div_mod::lemma_div_is_ordered(num, 255 * anum + anum / 2, anum);
    }
}

/// Straight alpha-over compositing, executable: [`over`] made exact.
pub fn over_px(sc: Color, dc: Color) -> (r: Color)
    ensures
        r == over(sc, dc),
{
    if sc.a == 0 {
        return dc;
    }
    let s: u32 = sc.a as u32;
    let d: u32 = dc.a as u32;
    let ds: u32 = 255 - s;
    proof {
        assert(0 <= (d as int) * (ds as int) <= 65025) by (nonlinear_arith)
            requires
                0 <= (d as int) <= 255,
                0 <= (ds as int) <= 255,
        ;
    }
    let anum: u32 = s * 255 + d * ds;
    proof {
        lemma_over_channel_bounds(sc.r as int, dc.r as int, s as int, d as int);
        lemma_over_channel_bounds(sc.g as int, dc.g as int, s as int, d as int);
        lemma_over_channel_bounds(sc.b as int, dc.b as int, s as int, d as int);
        assert((sc.r as int) * (s as int) * 255 <= 16_581_375int
            && (dc.r as int) * (d as int) * (ds as int) <= 16_581_375int
            && (sc.g as int) * (s as int) * 255 <= 16_581_375int
            && (dc.g as int) * (d as int) * (ds as int) <= 16_581_375int
            && (sc.b as int) * (s as int) * 255 <= 16_581_375int
            && (dc.b as int) * (d as int) * (ds as int) <= 16_581_375int) by (nonlinear_arith)
            requires
                0 <= (sc.r as int) <= 255,
                0 <= (dc.r as int) <= 255,
                0 <= (sc.g as int) <= 255,
                0 <= (dc.g as int) <= 255,
                0 <= (sc.b as int) <= 255,
                0 <= (dc.b as int) <= 255,
                0 < (s as int) <= 255,
                0 <= (d as int) <= 255,
                0 <= (ds as int) <= 255,
        ;
        assert((sc.r as int) * (s as int) <= 65025 && (dc.r as int) * (d as int) <= 65025
            && (sc.g as int) * (s as int) <= 65025 && (dc.g as int) * (d as int) <= 65025
            && (sc.b as int) * (s as int) <= 65025 && (dc.b as int) * (d as int) <= 65025)
            by (nonlinear_arith)
            requires
                0 <= (sc.r as int) <= 255,
                0 <= (dc.r as int) <= 255,
                0 <= (sc.g as int) <= 255,
                0 <= (dc.g as int) <= 255,
                0 <= (sc.b as int) <= 255,
                0 <= (dc.b as int) <= 255,
                0 < (s as int) <= 255,
                0 <= (d as int) <= 255,
        ;
    }
    let half: u32 = anum / 2;
    let r = ((sc.r as u32) * s * 255 + (dc.r as u32) * d * ds + half) / anum;
    let g = ((sc.g as u32) * s * 255 + (dc.g as u32) * d * ds + half) / anum;
    let b = ((sc.b as u32) * s * 255 + (dc.b as u32) * d * ds + half) / anum;
    let a = (anum + 127) / 255;
    proof {
        assert(0 <= (anum as int + 127) / 255 <= 255) by {
            lemma_fundamental_div_mod_converse_div(255int * 255 + 127, 255, 255, 127);
            vstd::arithmetic::div_mod::lemma_div_is_ordered(
                anum as int + 127,
                255int * 255 + 127,
                255,
            );
            vstd::arithmetic::div_mod::lemma_div_pos_is_pos(anum as int + 127, 255);
        }
    }
    Color { r: r as u8, g: g as u8, b: b as u8, a: a as u8 }
}

/// A buffer of `width × height` pixels, every one the color `c`.
pub fn fill(width: u32, height: u32, c: Color) -> (r: Raster)
    requires
        width <= MAX_DIM,
        height <= MAX_DIM,
    ensures
        r@.wf(),
        r@.width == width as int,
        r@.height == height as int,
        r@.pixels == filled(width as int, height as int, c),
{
    proof {
        assert(0 <= (width as int) * (height as int) <= 32767 * 32767)
            by (nonlinear_arith)
            requires
                0 <= (width as int) <= 32767,
                0 <= (height as int) <= 32767,
        ;
    }
    let area: u64 = (width as u64) * (height as u64);
    let mut pixels: Vec<u8> = Vec::new();
    let mut p: u64 = 0;
    while p < area
        invariant
            area == (width as int) * (height as int),
            area <= 32767 * 32767,
            0 <= p <= area,
            pixels@.len() == 4 * p,
            forall|i: int|
                0 <= i < 4 * p ==> pixels@[i] == color_channel(c, idx_c(i)),
        decreases area - p,
    {
        let ghost len0 = pixels@.len() as int;
        pixels.push(c.r);
        pixels.push(c.g);
        pixels.push(c.b);
        pixels.push(c.a);
        proof {
            assert forall|k: int| 0 <= k < 4 implies #[trigger] idx_c(len0 + k) == k by {
                lemma_fundamental_div_mod_converse_mod(4 * (p as int) + k, 4, p as int, k);
            }
        }
        p = p + 1;
    }
    proof {
        assert(4 * ((width as int) * (height as int)) == 4 * (width as int) * (height as int))
            by (nonlinear_arith);
        assert(pixels@ =~= filled(width as int, height as int, c));
    }
    Raster { width, height, pixels }
}

} // verus!

// Nearest-neighbour resampling and clipped alpha-over overlay.

verus! {

/// `src` resampled to `tw × th` pixels with nearest-neighbour
/// filtering: target pixel `(x, y)` takes the source pixel at
/// `(⌊x·w/tw⌋, ⌊y·h/th⌋)` — no interpolation, no smoothing.
pub open spec fn resampled(src: RasterV, tw: int, th: int) -> Seq<u8> {
    Seq::new(
        (4 * (tw * th)) as nat,
        |i: int|
            src.at(idx_x(i, tw) * src.width / tw, idx_y(i, tw) * src.height / th, idx_c(i)),
    )
}

/// `src` laid over `dst` with its top-left pixel at `(ox, oy)`:
/// destination pixels under the source rectangle take the alpha-over
/// blend of the source pixel over them; source pixels outside the
/// destination bounds are clipped; all other pixels keep their bytes.
pub open spec fn overlaid(dst: RasterV, src: RasterV, ox: int, oy: int) -> Seq<u8> {
    Seq::new(
        dst.pixels.len(),
        |i: int|
            {
                let x = idx_x(i, dst.width);
                let y = idx_y(i, dst.width);
                if ox <= x < ox + src.width && oy <= y < oy + src.height {
                    color_channel(
                        over(color_of(src, x - ox, y - oy), color_of(dst, x, y)),
                        idx_c(i),
                    )
                } else {
                    dst.pixels[i]
                }
            },
    )
}

/// What one overlaid byte is, at a destination pixel under the source
/// rectangle.
pub proof fn lemma_overlaid_inside(
    dst: RasterV,
    src: RasterV,
    ox: int,
    oy: int,
    x: int,
    y: int,
    c: int,
)
    requires
        dst.wf(),
        0 <= c < 4,
        0 < dst.width,
        0 <= x < dst.width,
        0 <= y < dst.height,
        ox <= x < ox + src.width,
        oy <= y < oy + src.height,
    ensures
        overlaid(dst, src, ox, oy)[4 * (y * dst.width + x) + c] == color_channel(
            over(color_of(src, x - ox, y - oy), color_of(dst, x, y)),
            c,
        ),
{
    lemma_pix_index(dst.width, x, y, c);
    assert(0 <= 4 * (y * dst.width + x) + c < 4 * dst.width * dst.height) by (nonlinear_arith)
        requires
            0 <= x < dst.width,
            0 <= y < dst.height,
            0 <= c < 4,
    ;
}

/// Nearest-neighbour resampling, executable: [`resampled`] made exact.
pub fn resample(src: &Raster, tw: u32, th: u32) -> (r: Raster)
    requires
        src@.wf(),
        1 <= src@.width,
        1 <= src@.height,
        1 <= tw <= MAX_DIM,
        1 <= th <= MAX_DIM,
    ensures
        r@.wf(),
        r@.width == tw as int,
        r@.height == th as int,
        r@.pixels == resampled(src@, tw as int, th as int),
{
    let sw: u64 = src.width as u64;
    let sh: u64 = src.height as u64;
    let ghost target = resampled(src@, tw as int, th as int);
    proof {
        assert(4 * ((tw as int) * (th as int)) == 4 * (tw as int) * (th as int))
            by (nonlinear_arith);
    }
    let mut pixels: Vec<u8> = Vec::new();
    let mut y: u32 = 0;
    while y < th
        invariant
            src@.wf(),
            1 <= src@.width <= MAX_DIM,
            1 <= src@.height <= MAX_DIM,
            sw == src@.width,
            sh == src@.height,
            1 <= tw <= MAX_DIM,
            1 <= th <= MAX_DIM,
            0 <= y <= th,
            target == resampled(src@, tw as int, th as int),
            pixels@.len() == 4 * ((y as int) * (tw as int)),
            forall|i: int| 0 <= i < pixels@.len() ==> pixels@[i] == target[i],
        decreases th - y,
    {
        let mut x: u32 = 0;
        proof {
            assert((y as int) * (tw as int) + (tw as int) == ((y as int) + 1) * (tw as int))
                by (nonlinear_arith);
            assert((y as int) * (tw as int) <= 32767 * 32767 && (y as int) * (tw as int) >= 0)
                by (nonlinear_arith)
                requires
                    0 <= (y as int) <= 32767,
                    0 <= (tw as int) <= 32767,
            ;
        }
        while x < tw
            invariant
                src@.wf(),
                1 <= src@.width <= MAX_DIM,
                1 <= src@.height <= MAX_DIM,
                sw == src@.width,
                sh == src@.height,
                1 <= tw <= MAX_DIM,
                1 <= th <= MAX_DIM,
                0 <= y < th,
                0 <= x <= tw,
                target == resampled(src@, tw as int, th as int),
                pixels@.len() == 4 * ((y as int) * (tw as int) + (x as int)),
                (y as int) * (tw as int) + (x as int) <= 32767 * 32767,
                forall|i: int| 0 <= i < pixels@.len() ==> pixels@[i] == target[i],
            decreases tw - x,
        {
            proof {
                assert(0 <= (x as int) * (sw as int) <= 32767 * 32767 && 0 <= (y as int) * (
                sh as int) <= 32767 * 32767) by (nonlinear_arith)
                    requires
                        0 <= (x as int) <= 32767,
                        0 <= (sw as int) <= 32767,
                        0 <= (y as int) <= 32767,
                        0 <= (sh as int) <= 32767,
                ;
            }
            let sx: u64 = (x as u64) * sw / (tw as u64);
            let sy: u64 = (y as u64) * sh / (th as u64);
            proof {
                assert((x as int) * (sw as int) < (tw as int) * (sw as int))
                    by (nonlinear_arith)
                    requires
                        0 <= (x as int) < (tw as int),
                        0 < (sw as int),
                ;
                lemma_multiply_divide_lt((x as int) * (sw as int), tw as int, sw as int);
                assert((y as int) * (sh as int) < (th as int) * (sh as int))
                    by (nonlinear_arith)
                    requires
                        0 <= (y as int) < (th as int),
                        0 < (sh as int),
                ;
                lemma_multiply_divide_lt((y as int) * (sh as int), th as int, sh as int);
                assert(0 <= (sy as int) * (sw as int) + (sx as int)
                    && 4 * ((sy as int) * (sw as int) + (sx as int)) + 3 < 4 * (sw as int) * (
                sh as int) && 4 * (sw as int) * (sh as int) <= 0xFFFF_FFFF)
                    by (nonlinear_arith)
                    requires
                        0 <= (sx as int) < (sw as int),
                        0 <= (sy as int) < (sh as int),
                        (sw as int) <= 32767,
                        (sh as int) <= 32767,
                ;
                assert(src@.pixels.len() == 4 * (sw as int) * (sh as int));
                assert(0 <= (y as int) * (tw as int) + (x as int) && 4 * ((y as int) * (
                tw as int) + (x as int)) + 3 < 4 * ((tw as int) * (th as int)))
                    by (nonlinear_arith)
                    requires
                        0 <= (x as int) < (tw as int),
                        0 <= (y as int) < (th as int),
                ;
            }
            let base: u64 = 4 * (sy * sw + sx);
            let ghost len0 = pixels@.len() as int;
            let ghost prev = pixels@;
            let b0 = src.pixels[base as usize];
            let b1 = src.pixels[(base + 1) as usize];
            let b2 = src.pixels[(base + 2) as usize];
            let b3 = src.pixels[(base + 3) as usize];
            pixels.push(b0);
            pixels.push(b1);
            pixels.push(b2);
            pixels.push(b3);
            proof {
                let p = (y as int) * (tw as int) + (x as int);
                assert(target.len() == 4 * ((tw as int) * (th as int)));
                assert forall|k: int| 0 <= k < 4 implies #[trigger] pixels@[len0 + k] == target[len0 + k] by {
                    lemma_pix_index(tw as int, x as int, y as int, k);
                    assert(0 <= 4 * p + k < target.len());
                    assert(target[4 * p + k] == src@.at(
                        idx_x(4 * p + k, tw as int) * src@.width / (tw as int),
                        idx_y(4 * p + k, tw as int) * src@.height / (th as int),
                        idx_c(4 * p + k),
                    ));
                    assert(target[4 * p + k] == src@.at(
                        (x as int) * (sw as int) / (tw as int),
                        (y as int) * (sh as int) / (th as int),
                        k,
                    ));
                }
                assert forall|i: int| 0 <= i < pixels@.len() implies #[trigger] pixels@[i]
                    == target[i] by {
                    if i < len0 {
                        assert(pixels@[i] == prev[i]);
                    } else {
                        let k = i - len0;
                        assert(pixels@[len0 + k] == target[len0 + k]);
                    }
                }
                assert(0 <= p + 1 && p + 1 <= 32767 * 32767) by (nonlinear_arith)
                    requires
                        0 <= (x as int) < (tw as int),
                        0 <= (y as int) < (th as int),
                        (tw as int) <= 32767,
                        (th as int) <= 32767,
                        p == (y as int) * (tw as int) + (x as int),
                ;
            }
            x = x + 1;
        }
        y = y + 1;
    }
    proof {
        assert(4 * ((th as int) * (tw as int)) == 4 * ((tw as int) * (th as int)))
            by (nonlinear_arith);
        assert(pixels@ =~= target);
    }
    Raster { width: tw, height: th, pixels }
}

/// Clipped alpha-over overlay, executable: [`overlaid`] made exact.
pub fn overlay(dst: &Raster, src: &Raster, ox: i64, oy: i64) -> (r: Raster)
    requires
        dst@.wf(),
        src@.wf(),
        -0x4000_0000_0000_0000 <= ox <= 0x4000_0000_0000_0000,
        -0x4000_0000_0000_0000 <= oy <= 0x4000_0000_0000_0000,
    ensures
        r@.wf(),
        r@.width == dst@.width,
        r@.height == dst@.height,
        r@.pixels == overlaid(dst@, src@, ox as int, oy as int),
{
    let wd: u32 = dst.width;
    let hd: u32 = dst.height;
    let ghost target = overlaid(dst@, src@, ox as int, oy as int);
    proof {
        assert(4 * ((wd as int) * (hd as int)) == 4 * (wd as int) * (hd as int))
            by (nonlinear_arith);
    }
    let mut pixels: Vec<u8> = Vec::new();
    let mut y: u32 = 0;
    while y < hd
        invariant
            dst@.wf(),
            src@.wf(),
            wd == dst@.width,
            hd == dst@.height,
            -0x4000_0000_0000_0000 <= ox <= 0x4000_0000_0000_0000,
            -0x4000_0000_0000_0000 <= oy <= 0x4000_0000_0000_0000,
            0 <= y <= hd,
            target == overlaid(dst@, src@, ox as int, oy as int),
            target.len() == dst@.pixels.len(),
            pixels@.len() == 4 * ((y as int) * (wd as int)),
            forall|i: int| 0 <= i < pixels@.len() ==> pixels@[i] == target[i],
        decreases hd - y,
    {
        let mut x: u32 = 0;
        proof {
            assert((y as int) * (wd as int) + (wd as int) == ((y as int) + 1) * (wd as int))
                by (nonlinear_arith);
            assert((y as int) * (wd as int) >= 0) by (nonlinear_arith)
                requires
                    0 <= (y as int),
                    0 <= (wd as int),
            ;
        }
        while x < wd
            invariant
                dst@.wf(),
                src@.wf(),
                wd == dst@.width,
                hd == dst@.height,
                -0x4000_0000_0000_0000 <= ox <= 0x4000_0000_0000_0000,
                -0x4000_0000_0000_0000 <= oy <= 0x4000_0000_0000_0000,
                0 <= y < hd,
                0 <= x <= wd,
                target == overlaid(dst@, src@, ox as int, oy as int),
                target.len() == dst@.pixels.len(),
                pixels@.len() == 4 * ((y as int) * (wd as int) + (x as int)),
                forall|i: int| 0 <= i < pixels@.len() ==> pixels@[i] == target[i],
            decreases wd - x,
        {
            proof {
                assert(0 <= (y as int) * (wd as int) + (x as int)
                    && 4 * ((y as int) * (wd as int) + (x as int)) + 3 < 4 * (wd as int) * (
                hd as int)) by (nonlinear_arith)
                    requires
                        0 <= (x as int) < (wd as int),
                        0 <= (y as int) < (hd as int),
                        (wd as int) <= 32767,
                        (hd as int) <= 32767,
                ;
            }
            proof {
                assert(4 * ((wd as int) * (hd as int)) <= 0xFFFF_FFFF && 4 * ((wd as int) * (
                hd as int)) == 4 * (wd as int) * (hd as int)) by (nonlinear_arith)
                    requires
                        0 <= (wd as int) <= 32767,
                        0 <= (hd as int) <= 32767,
                ;
                assert(dst@.pixels.len() == 4 * (wd as int) * (hd as int));
            }
            let dbase: u64 = 4 * ((y as u64) * (wd as u64) + (x as u64));
            let ghost len0 = pixels@.len() as int;
            let ghost prev = pixels@;
            let inside = (x as i64) >= ox && ((x as i64) - ox) < (src.width as i64) && (y as i64)
                >= oy && ((y as i64) - oy) < (src.height as i64);
            if inside {
                let sx: u64 = ((x as i64) - ox) as u64;
                let sy: u64 = ((y as i64) - oy) as u64;
                proof {
                    assert(0 <= (sy as int) * (src@.width) + (sx as int)
                        && 4 * ((sy as int) * (src@.width) + (sx as int)) + 3 < 4 * (src@.width)
                        * (src@.height) && 4 * (src@.width) * (src@.height) <= 0xFFFF_FFFF)
                        by (nonlinear_arith)
                        requires
                            0 <= (sx as int) < src@.width,
                            0 <= (sy as int) < src@.height,
                            src@.width <= 32767,
                            src@.height <= 32767,
                    ;
                    assert(src@.pixels.len() == 4 * src@.width * src@.height);
                }
                let sbase: u64 = 4 * (sy * (src.width as u64) + sx);
                let scol = Color {
                    r: src.pixels[sbase as usize],
                    g: src.pixels[(sbase + 1) as usize],
                    b: src.pixels[(sbase + 2) as usize],
                    a: src.pixels[(sbase + 3) as usize],
                };
                let dcol = Color {
                    r: dst.pixels[dbase as usize],
                    g: dst.pixels[(dbase + 1) as usize],
                    b: dst.pixels[(dbase + 2) as usize],
                    a: dst.pixels[(dbase + 3) as usize],
                };
                let out = over_px(scol, dcol);
                pixels.push(out.r);
                pixels.push(out.g);
                pixels.push(out.b);
                pixels.push(out.a);
                proof {
                    assert forall|k: int| 0 <= k < 4 implies #[trigger] pixels@[len0 + k]
                        == target[len0 + k] by {
                        lemma_pix_index(wd as int, x as int, y as int, k);
                        assert(scol == color_of(src@, (x as int) - ox, (y as int) - oy));
                        assert(dcol == color_of(dst@, x as int, y as int));
                        assert(target[len0 + k] == color_channel(over(scol, dcol), k));
                    }
                assert forall|i: int| 0 <= i < pixels@.len() implies #[trigger] pixels@[i]
                    == target[i] by {
                    if i < len0 {
                        assert(pixels@[i] == prev[i]);
                    } else {
                        let k = i - len0;
                        assert(pixels@[len0 + k] == target[len0 + k]);
                    }
                }
                }
            } else {
                let d0 = dst.pixels[dbase as usize];
                let d1 = dst.pixels[(dbase + 1) as usize];
                let d2 = dst.pixels[(dbase + 2) as usize];
                let d3 = dst.pixels[(dbase + 3) as usize];
                pixels.push(d0);
                pixels.push(d1);
                pixels.push(d2);
                pixels.push(d3);
                proof {
                    assert forall|k: int| 0 <= k < 4 implies #[trigger] pixels@[len0 + k]
                        == target[len0 + k] by {
                        lemma_pix_index(wd as int, x as int, y as int, k);
                        assert(target[len0 + k] == dst@.pixels[len0 + k]);
                    }
                assert forall|i: int| 0 <= i < pixels@.len() implies #[trigger] pixels@[i]
                    == target[i] by {
                    if i < len0 {
                        assert(pixels@[i] == prev[i]);
                    } else {
                        let k = i - len0;
                        assert(pixels@[len0 + k] == target[len0 + k]);
                    }
                }
                }
            }
            proof {
                assert((y as int) * (wd as int) + (x as int) + 1 <= (hd as int) * (wd as int))
                    by (nonlinear_arith)
                    requires
                        0 <= (x as int) < (wd as int),
                        0 <= (y as int) < (hd as int),
                ;
            }
            x = x + 1;
        }
        y = y + 1;
    }
    proof {
        assert(4 * ((hd as int) * (wd as int)) == 4 * (wd as int) * (hd as int))
            by (nonlinear_arith);
        assert(pixels@ =~= target);
    }
    Raster { width: wd, height: hd, pixels }
}

} // verus!
